//! Typed container payloads.
//!
//! A container holds the low halves of one 64K block as a sorted `u16` array,
//! as 1024 bitmap words, as runs of consecutive values, or (for a key group of
//! the inline format) as packed `u32`s. Kernels match on [`Data`] instead of
//! decoding bytes by hand.
use vstd::prelude::*;

use crate::arrays::array_contains;
use crate::format::{
    read_u16, read_u32, read_u64, run_bytes, same_outside, u16_at, u32_at, u64_at, write_u16, write_u64,
    BITMAP_BYTES, BITMAP_WORDS, CT_ARRAY, CT_BITMAP, CT_INLINE, CT_RUN, MAX_RUNS,
};
use crate::model::{asc16, asc32, hi, lemma_asc16_bound, lemma_asc16_len, lists, lo, untouched};
use crate::words::{bits_seq, bits_set, lemma_bits_set, popcount, push_values, test_value, to_array};

verus! {

/// A bitmap container: 1024 words covering a 2^16 key space.
pub type Bitmap = [u64; BITMAP_WORDS];

/// One run of consecutive values, covering `start..=start + len`.
#[derive(Debug, Clone, Copy, PartialEq, Eq, Structural)]
pub struct Run {
    pub start: u16,
    pub len: u16,
}

impl Run {
    /// The last value stays inside the block.
    pub open spec fn wf(self) -> bool {
        self.start + self.len <= 0xFFFF
    }

    /// Inclusive last value of the run.
    pub open spec fn last(self) -> int {
        self.start + self.len
    }

    /// `x` lies in the run.
    pub open spec fn has(self, x: u16) -> bool {
        self.start <= x <= self.last()
    }

    /// Inclusive last value of the run.
    pub fn end(self) -> (r: u16)
        requires
            self.wf(),
        ensures
            r == self.last(),
    {
        self.start + self.len
    }
}

/// Runs in range, ascending and non-overlapping (adjacent runs are allowed).
pub open spec fn runs_ok(runs: Seq<Run>) -> bool {
    &&& forall|i: int| 0 <= i < runs.len() ==> (#[trigger] runs[i]).wf()
    &&& forall|i: int, j: int|
        0 <= i < j < runs.len() ==> (#[trigger] runs[i]).last() < (#[trigger] runs[j]).start
}

/// The values covered by `runs`.
pub open spec fn runs_set(runs: Seq<Run>) -> Set<u16> {
    Set::new(|x: u16| exists|i: int| 0 <= i < runs.len() && (#[trigger] runs[i]).has(x))
}

/// Values covered by the first `k` runs, in ascending order when the runs are.
pub open spec fn runs_seq(runs: Seq<Run>, k: int) -> Seq<u16>
    decreases k,
{
    if k <= 0 {
        Seq::empty()
    } else {
        runs_seq(runs, k - 1) + Seq::new(
            (runs[k - 1].len + 1) as nat,
            |j: int| (runs[k - 1].start + j) as u16,
        )
    }
}

/// Number of values covered by the first `k` runs.
pub open spec fn runs_card(runs: Seq<Run>, k: int) -> int
    decreases k,
{
    if k <= 0 {
        0
    } else {
        runs_card(runs, k - 1) + runs[k - 1].len + 1
    }
}

/// The listing of the first `k` runs is ascending, has the counted length, and
/// holds exactly the covered values.
pub proof fn lemma_runs_seq(runs: Seq<Run>, k: int)
    requires
        runs_ok(runs),
        0 <= k <= runs.len(),
    ensures
        asc16(runs_seq(runs, k)),
        runs_seq(runs, k).len() == runs_card(runs, k),
        forall|x: u16|
            #![trigger runs_seq(runs, k).contains(x)]
            runs_seq(runs, k).contains(x) <==> runs_set(runs.take(k)).contains(x),
    decreases k,
{
    let s = runs_seq(runs, k);
    if k > 0 {
        lemma_runs_seq(runs, k - 1);
        let p = runs_seq(runs, k - 1);
        let r = runs[k - 1];
        let t = Seq::new((r.len + 1) as nat, |j: int| (r.start + j) as u16);
        assert(s == p + t);
        assert(forall|j: int| 0 <= j < t.len() ==> t[j] == r.start + j);
        assert forall|i: int, j: int| 0 <= i < j < s.len() implies s[i] < s[j] by {
            if i < p.len() && j >= p.len() {
                assert(p.contains(p[i]));
                assert(runs_set(runs.take(k - 1)).contains(p[i]));
                let q = choose|q: int|
                    0 <= q < runs.take(k - 1).len() && (#[trigger] runs.take(k - 1)[q]).has(p[i]);
                assert(runs[q].last() < r.start);
                assert(s[j] == t[j - p.len()]);
            } else if i >= p.len() {
                assert(s[j] == t[j - p.len()] && s[i] == t[i - p.len()]);
            }
        }
        assert forall|x: u16| s.contains(x) <==> runs_set(runs.take(k)).contains(x) by {
            if s.contains(x) {
                let i = choose|i: int| 0 <= i < s.len() && s[i] == x;
                if i < p.len() {
                    assert(p.contains(x));
                    let q = choose|q: int|
                        0 <= q < runs.take(k - 1).len() && (#[trigger] runs.take(k - 1)[q]).has(x);
                    assert(runs.take(k)[q].has(x));
                } else {
                    assert(s[i] == t[i - p.len()]);
                    assert(runs.take(k)[k - 1].has(x));
                }
            }
            if runs_set(runs.take(k)).contains(x) {
                let q = choose|q: int|
                    0 <= q < runs.take(k).len() && (#[trigger] runs.take(k)[q]).has(x);
                if q < k - 1 {
                    assert(runs.take(k - 1)[q].has(x));
                    assert(p.contains(x));
                    let i = choose|i: int| 0 <= i < p.len() && p[i] == x;
                    assert(s[i] == x);
                } else {
                    assert(s[p.len() + (x - r.start)] == x);
                }
            }
        }
    } else {
        assert(runs.take(k) =~= Seq::<Run>::empty());
    }
}

/// The covered set is finite, and its size is the sum of the run lengths.
pub proof fn lemma_runs_set_len(runs: Seq<Run>)
    requires
        runs_ok(runs),
    ensures
        runs_set(runs).finite(),
        runs_set(runs).len() == runs_card(runs, runs.len() as int),
        runs_seq(runs, runs.len() as int).to_set() == runs_set(runs),
        asc16(runs_seq(runs, runs.len() as int)),
{
    let n = runs.len() as int;
    lemma_runs_seq(runs, n);
    assert(runs.take(n) =~= runs);
    let s = runs_seq(runs, n);
    lemma_asc16_len(s);
    assert(s.to_set() =~= runs_set(runs));
}

// --- payload bytes -------------------------------------------------------------

/// The `card` values of an array payload at `s`.
pub open spec fn array_at(b: Seq<u8>, s: int, card: int) -> Seq<u16> {
    Seq::new(card as nat, |i: int| u16_at(b, s + 2 * i))
}

/// The words of a bitmap payload at `s`.
pub open spec fn words_at(b: Seq<u8>, s: int) -> Seq<u64> {
    Seq::new(1024, |i: int| u64_at(b, s + 8 * i))
}

/// The run stored at `o`.
pub open spec fn run_at(b: Seq<u8>, o: int) -> Run {
    Run { start: u16_at(b, o), len: u16_at(b, o + 2) }
}

/// The runs of a run payload at `s`.
pub open spec fn runs_at(b: Seq<u8>, s: int) -> Seq<Run> {
    Seq::new(u16_at(b, s) as nat, |i: int| run_at(b, s + 2 + 4 * i))
}

/// The `card` packed values of an inline key group at `s`.
pub open spec fn packed_at(b: Seq<u8>, s: int, card: int) -> Seq<u32> {
    Seq::new(card as nat, |i: int| u32_at(b, s + 4 * i))
}

/// The values of one key group, ascending.
pub open spec fn group_ok(ids: Seq<u32>) -> bool {
    &&& asc32(ids)
    &&& forall|i: int, j: int| 0 <= i < ids.len() && 0 <= j < ids.len() ==> hi(ids[i]) == hi(ids[j])
}

/// Low halves of packed values.
pub open spec fn lows(ids: Seq<u32>) -> Seq<u16> {
    Seq::new(ids.len(), |i: int| lo(ids[i]))
}

/// Stored size of the payload at `s`.
pub open spec fn payload_size(b: Seq<u8>, s: int, typ: u8, card: int) -> int {
    if typ == CT_ARRAY {
        2 * card
    } else if typ == CT_BITMAP {
        BITMAP_BYTES as int
    } else if typ == CT_RUN {
        2 + 4 * u16_at(b, s)
    } else {
        4 * card
    }
}

/// The payload at `s` lies within `b` and is what its type and cardinality say:
/// an ascending array, a bitmap of `card` values, between one and [`MAX_RUNS`]
/// ascending runs of `card` values in all, or a key group.
pub open spec fn payload_ok(b: Seq<u8>, s: int, typ: u8, card: int) -> bool {
    &&& 0 <= s
    &&& 1 <= card <= 65536
    &&& typ == CT_RUN ==> s + 2 <= b.len()
    &&& s + payload_size(b, s, typ, card) <= b.len()
    &&& if typ == CT_ARRAY {
        asc16(array_at(b, s, card))
    } else if typ == CT_BITMAP {
        bits_set(words_at(b, s)).len() == card
    } else if typ == CT_RUN {
        &&& 1 <= u16_at(b, s) <= MAX_RUNS
        &&& runs_ok(runs_at(b, s))
        &&& runs_set(runs_at(b, s)).len() == card
    } else {
        typ == CT_INLINE && group_ok(packed_at(b, s, card))
    }
}

/// The values of the payload at `s`.
pub open spec fn payload_set(b: Seq<u8>, s: int, typ: u8, card: int) -> Set<u16> {
    if typ == CT_ARRAY {
        array_at(b, s, card).to_set()
    } else if typ == CT_BITMAP {
        bits_set(words_at(b, s))
    } else if typ == CT_RUN {
        runs_set(runs_at(b, s))
    } else {
        lows(packed_at(b, s, card)).to_set()
    }
}

pub proof fn lemma_group_lows(ids: Seq<u32>)
    requires
        group_ok(ids),
    ensures
        asc16(lows(ids)),
{
    assert forall|i: int, j: int| 0 <= i < j < lows(ids).len() implies lows(ids)[i] < lows(
        ids,
    )[j] by {
        assert(hi(ids[i]) == hi(ids[j]));
        assert(ids[i] < ids[j]);
    }
}

/// A valid payload holds as many values as its cardinality says.
pub proof fn lemma_payload_len(b: Seq<u8>, s: int, typ: u8, card: int)
    requires
        payload_ok(b, s, typ, card),
    ensures
        payload_set(b, s, typ, card).finite(),
        payload_set(b, s, typ, card).len() == card,
{
    if typ == CT_ARRAY {
        lemma_asc16_len(array_at(b, s, card));
    } else if typ == CT_BITMAP {
        lemma_bits_set(words_at(b, s));
    } else if typ == CT_RUN {
        lemma_runs_set_len(runs_at(b, s));
    } else {
        lemma_group_lows(packed_at(b, s, card));
        lemma_asc16_len(lows(packed_at(b, s, card)));
    }
}

// --- decoded payload -------------------------------------------------------------

/// One container's payload, decoded by type. `Inline` appears only for inputs in
/// the inline format (a key group of packed `u32`s).
#[derive(Debug)]
pub enum Data {
    Array(Vec<u16>),
    Bitmap(Box<Bitmap>),
    Run(Vec<Run>),
    Inline(Vec<u32>),
}

impl Data {
    /// The payload is sorted the way its form requires.
    pub open spec fn wf(self) -> bool {
        match self {
            Data::Array(a) => asc16(a@),
            Data::Bitmap(_) => true,
            Data::Run(r) => runs_ok(r@),
            Data::Inline(ids) => group_ok(ids@),
        }
    }

    /// The values, ascending.
    pub open spec fn listing(self) -> Seq<u16> {
        match self {
            Data::Array(a) => a@,
            Data::Bitmap(b) => bits_seq((*b)@, 65536),
            Data::Run(r) => runs_seq(r@, r@.len() as int),
            Data::Inline(ids) => lows(ids@),
        }
    }

    /// The values.
    pub open spec fn set(self) -> Set<u16> {
        match self {
            Data::Array(a) => a@.to_set(),
            Data::Bitmap(b) => bits_set((*b)@),
            Data::Run(r) => runs_set(r@),
            Data::Inline(ids) => lows(ids@).to_set(),
        }
    }

    /// The listing is the set in ascending order.
    pub proof fn lemma_listing(self)
        requires
            self.wf(),
        ensures
            asc16(self.listing()),
            self.listing().to_set() == self.set(),
            self.listing().len() == self.set().len(),
            self.set().finite(),
            self.set().len() <= 65536,
    {
        match self {
            Data::Array(a) => {},
            Data::Bitmap(b) => {
                lemma_bits_set((*b)@);
            },
            Data::Run(r) => {
                lemma_runs_set_len(r@);
            },
            Data::Inline(ids) => {
                lemma_group_lows(ids@);
            },
        }
        lemma_asc16_len(self.listing());
        lemma_asc16_bound(self.listing());
    }

    /// Decode a payload by type.
    pub fn new(typ: u8, card: u32, bytes: &[u8]) -> (r: Data)
        requires
            payload_ok(bytes@, 0, typ, card as int),
        ensures
            r.wf(),
            r.set() == payload_set(bytes@, 0, typ, card as int),
            r is Array <==> typ == CT_ARRAY,
            r is Bitmap <==> typ == CT_BITMAP,
            r is Run <==> typ == CT_RUN,
    {
        Data::decode(typ, card, bytes, 0)
    }

    /// Decode the payload at `start` by type.
    pub fn decode(typ: u8, card: u32, bytes: &[u8], start: usize) -> (r: Data)
        requires
            payload_ok(bytes@, start as int, typ, card as int),
            start <= bytes.len(),
        ensures
            r.wf(),
            r.set() == payload_set(bytes@, start as int, typ, card as int),
            r is Array <==> typ == CT_ARRAY,
            r is Bitmap <==> typ == CT_BITMAP,
            r is Run <==> typ == CT_RUN,
            r matches Data::Run(v) ==> v@ == runs_at(bytes@, start as int),
    {
        if typ == CT_ARRAY {
            Data::Array(decode_array(bytes, start, card as usize))
        } else if typ == CT_BITMAP {
            Data::Bitmap(bitmap_at(bytes, start))
        } else if typ == CT_RUN {
            Data::Run(decode_runs(bytes, start))
        } else {
            Data::Inline(decode_packed(bytes, start, card as usize))
        }
    }

    /// Whether `lo` is present.
    pub fn contains(&self, lo: u16) -> (r: bool)
        requires
            self.wf(),
        ensures
            r == self.set().contains(lo),
    {
        match self {
            Data::Array(a) => array_contains(a.as_slice(), lo),
            Data::Bitmap(b) => test_value(b, lo),
            Data::Run(runs) => runs_contains(runs.as_slice(), lo),
            Data::Inline(ids) => group_contains(ids.as_slice(), lo),
        }
    }

    /// Write the values, ascending, into `out`; returns their number.
    pub fn write_sorted(&self, out: &mut [u16]) -> (r: usize)
        requires
            self.wf(),
            self.set().len() <= old(out).len(),
        ensures
            final(out).len() == old(out).len(),
            lists(final(out)@, r as int, self.set()),
            r == self.set().len(),
            untouched(old(out)@, final(out)@, r as int),
    {
        proof {
            self.lemma_listing();
        }
        match self {
            Data::Bitmap(b) => to_array(b, out),
            _ => {
                let mut vals: Vec<u16> = Vec::new();
                self.for_each(&mut vals);
                let mut k: usize = 0;
                while k < vals.len()
                    invariant
                        k <= vals.len() <= out.len() == old(out).len(),
                        forall|i: int| 0 <= i < k ==> out[i] == vals[i],
                        untouched(old(out)@, out@, k as int),
                    decreases vals.len() - k,
                {
                    out[k] = vals[k];
                    k = k + 1;
                }
                assert(out@.take(k as int) =~= vals@);
                k
            },
        }
    }

    /// Append the values, ascending, to `out`.
    pub fn for_each(&self, out: &mut Vec<u16>)
        requires
            self.wf(),
        ensures
            final(out)@ == old(out)@ + self.listing(),
    {
        match self {
            Data::Array(a) => {
                let mut k: usize = 0;
                assert(old(out)@ + a@.take(0) =~= old(out)@);
                while k < a.len()
                    invariant
                        k <= a.len(),
                        out@ == old(out)@ + a@.take(k as int),
                    decreases a.len() - k,
                {
                    out.push(a[k]);
                    assert(out@ =~= old(out)@ + a@.take(k + 1));
                    k = k + 1;
                }
                assert(a@.take(k as int) =~= a@);
            },
            Data::Inline(ids) => {
                let mut k: usize = 0;
                let ghost all = lows(ids@);
                assert(old(out)@ + all.take(0) =~= old(out)@);
                while k < ids.len()
                    invariant
                        k <= ids.len(),
                        all == lows(ids@),
                        out@ == old(out)@ + all.take(k as int),
                    decreases ids.len() - k,
                {
                    out.push((ids[k] % 65536) as u16);
                    assert(out@ =~= old(out)@ + all.take(k + 1));
                    k = k + 1;
                }
                assert(all.take(k as int) =~= all);
            },
            Data::Run(runs) => {
                let mut k: usize = 0;
                assert(old(out)@ + runs_seq(runs@, 0) =~= old(out)@);
                while k < runs.len()
                    invariant
                        k <= runs.len(),
                        runs_ok(runs@),
                        out@ == old(out)@ + runs_seq(runs@, k as int),
                    decreases runs.len() - k,
                {
                    push_run(runs[k], out);
                    proof {
                        let r = runs@[k as int];
                        let tail = Seq::new((r.len + 1) as nat, |j: int| (r.start + j) as u16);
                        assert(out@ =~= old(out)@ + runs_seq(runs@, k as int) + tail);
                        assert(runs_seq(runs@, k + 1) =~= runs_seq(runs@, k as int) + tail);
                    }
                    k = k + 1;
                }
            },
            Data::Bitmap(b) => {
                push_values(b, out);
            },
        }
    }
}

/// Append the values of one run.
fn push_run(r: Run, out: &mut Vec<u16>)
    requires
        r.wf(),
    ensures
        final(out)@ == old(out)@ + Seq::new((r.len + 1) as nat, |j: int| (r.start + j) as u16),
{
    let ghost all = Seq::new((r.len + 1) as nat, |j: int| (r.start + j) as u16);
    let mut k: u32 = 0;
    assert(old(out)@ + all.take(0) =~= old(out)@);
    while k <= r.len as u32
        invariant
            k <= r.len + 1,
            r.wf(),
            all == Seq::new((r.len + 1) as nat, |j: int| (r.start + j) as u16),
            out@ == old(out)@ + all.take(k as int),
        decreases r.len + 1 - k,
    {
        out.push((r.start as u32 + k) as u16);
        assert(out@ =~= old(out)@ + all.take(k + 1));
        k = k + 1;
    }
    assert(all.take(k as int) =~= all);
}

/// Number of values the runs cover.
pub fn runs_count(runs: &[Run]) -> (r: u32)
    requires
        runs_ok(runs@),
    ensures
        r == runs_set(runs@).len(),
{
    let mut r: u32 = 0;
    let mut i: usize = 0;
    while i < runs.len()
        invariant
            i <= runs.len(),
            runs_ok(runs@),
            r == runs_card(runs@, i as int),
        decreases runs.len() - i,
    {
        proof {
            lemma_runs_seq(runs@, i + 1);
            lemma_asc16_bound(runs_seq(runs@, i + 1));
        }
        r = r + (runs[i].len as u32 + 1);
        i = i + 1;
    }
    proof {
        lemma_runs_set_len(runs@);
    }
    r
}

/// Whether one of the runs covers `v`: the last one starting at or before it is
/// the only candidate.
pub fn runs_contains(runs: &[Run], v: u16) -> (r: bool)
    requires
        runs_ok(runs@),
    ensures
        r == runs_set(runs@).contains(v),
{
    let mut a: usize = 0;
    let mut z: usize = runs.len();
    while a < z
        invariant
            runs_ok(runs@),
            a <= z <= runs.len(),
            forall|i: int| 0 <= i < a ==> (#[trigger] runs[i]).start <= v,
            forall|i: int| z <= i < runs.len() ==> (#[trigger] runs[i]).start > v,
        decreases z - a,
    {
        let mid: usize = a + (z - a) / 2;
        if runs[mid].start <= v {
            proof {
                assert forall|i: int| 0 <= i < mid + 1 implies (#[trigger] runs[i]).start <= v by {
                    if i < mid {
                        assert(runs[i].last() < runs[mid as int].start);
                    }
                }
            }
            a = mid + 1;
        } else {
            proof {
                assert forall|i: int| mid <= i < runs.len() implies (#[trigger] runs[i]).start > v by {
                    if i > mid {
                        assert(runs[mid as int].last() < runs[i].start);
                    }
                }
            }
            z = mid;
        }
    }
    let hit: bool = a > 0 && v <= runs[a - 1].end();
    assert(hit == runs_set(runs@).contains(v)) by {
        if hit {
            assert(runs@[a - 1].has(v));
        }
        if runs_set(runs@).contains(v) {
            let i = choose|i: int| 0 <= i < runs@.len() && (#[trigger] runs@[i]).has(v);
            assert(i < a) by {
                if i >= z {
                    assert(runs[i].start > v);
                }
            }
            if i < a - 1 {
                assert(runs[i].last() < runs[a - 1].start);
            }
        }
    }
    hit
}

/// Whether a key group holds the low half `v`.
fn group_contains(ids: &[u32], v: u16) -> (r: bool)
    requires
        group_ok(ids@),
    ensures
        r == lows(ids@).to_set().contains(v),
{
    let ghost all = lows(ids@);
    let mut a: usize = 0;
    let mut z: usize = ids.len();
    proof {
        lemma_group_lows(ids@);
    }
    while a < z
        invariant
            all == lows(ids@),
            asc16(all),
            a <= z <= ids.len(),
            forall|i: int| 0 <= i < a ==> all[i] < v,
            forall|i: int| z <= i < ids.len() ==> all[i] > v,
        decreases z - a,
    {
        let mid: usize = a + (z - a) / 2;
        let m: u16 = (ids[mid] % 65536) as u16;
        assert(m == all[mid as int]);
        if m < v {
            a = mid + 1;
        } else if m > v {
            z = mid;
        } else {
            assert(all.contains(v));
            return true;
        }
    }
    false
}

pub(crate) fn decode_array(bytes: &[u8], start: usize, card: usize) -> (r: Vec<u16>)
    requires
        start + 2 * card <= bytes.len(),
    ensures
        r@ == array_at(bytes@, start as int, card as int),
{
    let mut r: Vec<u16> = Vec::with_capacity(card);
    let mut i: usize = 0;
    while i < card
        invariant
            i <= card,
            start + 2 * card <= bytes.len(),
            r.len() == i,
            forall|k: int| 0 <= k < i ==> r[k] == u16_at(bytes@, start + 2 * k),
        decreases card - i,
    {
        r.push(read_u16(bytes, start + 2 * i));
        i = i + 1;
    }
    assert(r@ =~= array_at(bytes@, start as int, card as int));
    r
}

fn decode_packed(bytes: &[u8], start: usize, card: usize) -> (r: Vec<u32>)
    requires
        start + 4 * card <= bytes.len(),
    ensures
        r@ == packed_at(bytes@, start as int, card as int),
{
    let mut r: Vec<u32> = Vec::with_capacity(card);
    let mut i: usize = 0;
    while i < card
        invariant
            i <= card,
            start + 4 * card <= bytes.len(),
            r.len() == i,
            forall|k: int| 0 <= k < i ==> r[k] == u32_at(bytes@, start + 4 * k),
        decreases card - i,
    {
        r.push(read_u32(bytes, start + 4 * i));
        i = i + 1;
    }
    assert(r@ =~= packed_at(bytes@, start as int, card as int));
    r
}

pub(crate) fn decode_runs(bytes: &[u8], start: usize) -> (r: Vec<Run>)
    requires
        start + 2 <= bytes.len(),
        start + 2 + 4 * u16_at(bytes@, start as int) <= bytes.len(),
    ensures
        r@ == runs_at(bytes@, start as int),
{
    let nr: usize = read_u16(bytes, start) as usize;
    let mut r: Vec<Run> = Vec::with_capacity(nr);
    let mut i: usize = 0;
    while i < nr
        invariant
            i <= nr,
            nr == u16_at(bytes@, start as int),
            start + 2 + 4 * nr <= bytes.len(),
            r.len() == i,
            forall|k: int| 0 <= k < i ==> r[k] == run_at(bytes@, start + 2 + 4 * k),
        decreases nr - i,
    {
        let o: usize = start + 2 + 4 * i;
        r.push(Run { start: read_u16(bytes, o), len: read_u16(bytes, o + 2) });
        i = i + 1;
    }
    assert(r@ =~= runs_at(bytes@, start as int));
    r
}

/// A bitmap payload as words.
pub fn as_bitmap(bytes: &[u8]) -> (r: Box<Bitmap>)
    requires
        bytes.len() == BITMAP_BYTES,
    ensures
        (*r)@ == words_at(bytes@, 0),
{
    bitmap_at(bytes, 0)
}

/// The bitmap stored at `start`.
pub fn bitmap_at(bytes: &[u8], start: usize) -> (r: Box<Bitmap>)
    requires
        start + BITMAP_BYTES <= bytes.len(),
    ensures
        (*r)@ == words_at(bytes@, start as int),
{
    let mut r: Box<Bitmap> = Box::new([0u64; 1024]);
    let mut i: usize = 0;
    while i < BITMAP_WORDS
        invariant
            i <= BITMAP_WORDS,
            start + BITMAP_BYTES <= bytes.len(),
            forall|k: int| 0 <= k < i ==> (*r)[k] == u64_at(bytes@, start + 8 * k),
        decreases BITMAP_WORDS - i,
    {
        r[i] = read_u64(bytes, start + 8 * i);
        i = i + 1;
    }
    assert((*r)@ =~= words_at(bytes@, start as int));
    r
}

// --- storing ---------------------------------------------------------------------

/// Store an array payload at `start`.
pub fn store_array(buf: &mut [u8], start: usize, vals: &[u16])
    requires
        start + 2 * vals.len() <= old(buf).len(),
    ensures
        array_at(final(buf)@, start as int, vals.len() as int) == vals@,
        same_outside(final(buf)@, old(buf)@, start as int, start + 2 * vals.len()),
{
    let mut i: usize = 0;
    while i < vals.len()
        invariant
            i <= vals.len(),
            start + 2 * vals.len() <= buf.len() == old(buf).len(),
            forall|k: int| 0 <= k < i ==> #[trigger] vals[k] == u16_at(buf@, start + 2 * k),
            same_outside(buf@, old(buf)@, start as int, start + 2 * vals.len()),
        decreases vals.len() - i,
    {
        write_u16(buf, start + 2 * i, vals[i]);
        i = i + 1;
    }
    assert(array_at(buf@, start as int, vals.len() as int) =~= vals@);
}

/// Store a run payload at `start`: the count, then each run.
pub fn store_runs(buf: &mut [u8], start: usize, runs: &[Run])
    requires
        runs.len() <= 0xFFFF,
        start + 2 + 4 * runs.len() <= old(buf).len(),
    ensures
        runs_at(final(buf)@, start as int) == runs@,
        same_outside(final(buf)@, old(buf)@, start as int, start + 2 + 4 * runs.len()),
{
    write_u16(buf, start, runs.len() as u16);
    let mut i: usize = 0;
    while i < runs.len()
        invariant
            i <= runs.len() <= 0xFFFF,
            start + 2 + 4 * runs.len() <= buf.len() == old(buf).len(),
            u16_at(buf@, start as int) == runs.len(),
            forall|k: int| 0 <= k < i ==> #[trigger] runs[k] == run_at(buf@, start + 2 + 4 * k),
            same_outside(buf@, old(buf)@, start as int, start + 2 + 4 * runs.len()),
        decreases runs.len() - i,
    {
        let o: usize = start + 2 + 4 * i;
        write_u16(buf, o, runs[i].start);
        write_u16(buf, o + 2, runs[i].len);
        i = i + 1;
    }
    assert(runs_at(buf@, start as int) =~= runs@);
}

/// Store a bitmap payload at `start`.
pub fn store_bitmap(buf: &mut [u8], start: usize, b: &Bitmap)
    requires
        start + BITMAP_BYTES <= old(buf).len(),
    ensures
        words_at(final(buf)@, start as int) == b@,
        same_outside(final(buf)@, old(buf)@, start as int, start + BITMAP_BYTES),
{
    let mut i: usize = 0;
    while i < BITMAP_WORDS
        invariant
            i <= BITMAP_WORDS,
            start + BITMAP_BYTES <= buf.len() == old(buf).len(),
            forall|k: int| 0 <= k < i ==> #[trigger] b[k] == u64_at(buf@, start + 8 * k),
            same_outside(buf@, old(buf)@, start as int, start + BITMAP_BYTES),
        decreases BITMAP_WORDS - i,
    {
        write_u64(buf, start + 8 * i, b[i]);
        i = i + 1;
    }
    assert(words_at(buf@, start as int) =~= b@);
}

/// A payload reads the same from equal bytes.
pub proof fn lemma_payload_same(b: Seq<u8>, s: int, c: Seq<u8>, t: int, typ: u8, card: int)
    requires
        0 <= s,
        0 <= t,
        1 <= card,
        typ == CT_RUN ==> s + 2 <= b.len(),
        s + payload_size(b, s, typ, card) <= b.len(),
        t + payload_size(b, s, typ, card) <= c.len(),
        forall|k: int|
            0 <= k < payload_size(b, s, typ, card) ==> #[trigger] b[s + k] == #[trigger] c[t + k],
    ensures
        payload_size(c, t, typ, card) == payload_size(b, s, typ, card),
        payload_ok(c, t, typ, card) == payload_ok(b, s, typ, card),
        payload_set(c, t, typ, card) == payload_set(b, s, typ, card),
{
    let z = payload_size(b, s, typ, card);
    if typ == CT_ARRAY {
        assert forall|i: int| 0 <= i < card implies #[trigger] array_at(b, s, card)[i]
            == array_at(c, t, card)[i] by {
            assert(b[s + 2 * i] == c[t + 2 * i]);
            assert(b[s + (2 * i + 1)] == c[t + (2 * i + 1)]);
        }
        assert(array_at(b, s, card) =~= array_at(c, t, card));
    } else if typ == CT_BITMAP {
        assert forall|i: int| 0 <= i < 1024 implies #[trigger] words_at(b, s)[i] == words_at(
            c,
            t,
        )[i] by {
            assert(b[s + 8 * i] == c[t + 8 * i]);
            assert(b[s + (8 * i + 1)] == c[t + (8 * i + 1)]);
            assert(b[s + (8 * i + 2)] == c[t + (8 * i + 2)]);
            assert(b[s + (8 * i + 3)] == c[t + (8 * i + 3)]);
            assert(b[s + (8 * i + 4)] == c[t + (8 * i + 4)]);
            assert(b[s + (8 * i + 5)] == c[t + (8 * i + 5)]);
            assert(b[s + (8 * i + 6)] == c[t + (8 * i + 6)]);
            assert(b[s + (8 * i + 7)] == c[t + (8 * i + 7)]);
        }
        assert(words_at(b, s) =~= words_at(c, t));
    } else if typ == CT_RUN {
        assert(u16_at(b, s) == u16_at(c, t)) by {
            assert(b[s + 0] == c[t + 0]);
            assert(b[s + 1] == c[t + 1]);
        }
        assert forall|i: int| 0 <= i < u16_at(b, s) implies #[trigger] runs_at(b, s)[i] == runs_at(
            c,
            t,
        )[i] by {
            assert(b[s + (4 * i + 2)] == c[t + (4 * i + 2)]);
            assert(b[s + (4 * i + 3)] == c[t + (4 * i + 3)]);
            assert(b[s + (4 * i + 4)] == c[t + (4 * i + 4)]);
            assert(b[s + (4 * i + 5)] == c[t + (4 * i + 5)]);
        }
        assert(runs_at(b, s) =~= runs_at(c, t));
    } else {
        assert forall|i: int| 0 <= i < card implies #[trigger] packed_at(b, s, card)[i]
            == packed_at(c, t, card)[i] by {
            assert(b[s + 4 * i] == c[t + 4 * i]);
            assert(b[s + (4 * i + 1)] == c[t + (4 * i + 1)]);
            assert(b[s + (4 * i + 2)] == c[t + (4 * i + 2)]);
            assert(b[s + (4 * i + 3)] == c[t + (4 * i + 3)]);
        }
        assert(packed_at(b, s, card) =~= packed_at(c, t, card));
    }
}

impl Data {
    /// The container type a payload of this form is stored under.
    pub open spec fn spec_typ(self) -> u8 {
        match self {
            Data::Array(_) => CT_ARRAY,
            Data::Bitmap(_) => CT_BITMAP,
            Data::Run(_) => CT_RUN,
            Data::Inline(_) => CT_INLINE,
        }
    }

    /// Stored payload size.
    pub open spec fn spec_bytes(self) -> int {
        match self {
            Data::Array(a) => (2 * a@.len()) as int,
            Data::Bitmap(_) => BITMAP_BYTES as int,
            Data::Run(r) => (2 + 4 * r@.len()) as int,
            Data::Inline(ids) => (4 * ids@.len()) as int,
        }
    }

    /// A payload that may be stored: not empty, not a key group, and with no more
    /// runs than a stored run container may have.
    pub open spec fn storable(self) -> bool {
        &&& self.wf()
        &&& self.set().len() > 0
        &&& !(self is Inline)
        &&& self matches Data::Run(r) ==> r@.len() <= MAX_RUNS
    }

    /// The container type of this form.
    pub fn typ(&self) -> (r: u8)
        ensures
            r == self.spec_typ(),
    {
        match self {
            Data::Array(_) => CT_ARRAY,
            Data::Bitmap(_) => CT_BITMAP,
            Data::Run(_) => CT_RUN,
            Data::Inline(_) => CT_INLINE,
        }
    }

    /// Number of values.
    pub fn count(&self) -> (r: u32)
        requires
            self.wf(),
        ensures
            r == self.set().len(),
    {
        proof {
            self.lemma_listing();
        }
        match self {
            Data::Array(a) => a.len() as u32,
            Data::Bitmap(b) => popcount(b),
            Data::Run(r) => runs_count(r.as_slice()),
            Data::Inline(ids) => ids.len() as u32,
        }
    }

    /// Stored payload size.
    pub fn byte_len(&self) -> (r: usize)
        requires
            self.storable(),
        ensures
            r == self.spec_bytes(),
            r <= 131072,
            r > 0,
    {
        proof {
            self.lemma_listing();
        }
        match self {
            Data::Array(a) => a.len() * 2,
            Data::Bitmap(_) => BITMAP_BYTES,
            Data::Run(r) => run_bytes(r.len()),
            Data::Inline(ids) => 0,
        }
    }

    /// Store the payload at `start`.
    pub fn store(&self, buf: &mut [u8], start: usize)
        requires
            self.storable(),
            start + self.spec_bytes() <= old(buf).len(),
        ensures
            same_outside(final(buf)@, old(buf)@, start as int, start + self.spec_bytes()),
            payload_ok(final(buf)@, start as int, self.spec_typ(), self.set().len() as int),
            payload_set(final(buf)@, start as int, self.spec_typ(), self.set().len() as int)
                == self.set(),
            payload_size(final(buf)@, start as int, self.spec_typ(), self.set().len() as int)
                == self.spec_bytes(),
    {
        proof {
            self.lemma_listing();
        }
        match self {
            Data::Array(a) => store_array(buf, start, a.as_slice()),
            Data::Bitmap(b) => store_bitmap(buf, start, b),
            Data::Run(r) => {
                store_runs(buf, start, r.as_slice());
                assert(runs_set(r@).len() > 0);
                proof {
                    lemma_runs_set_len(r@);
                }
            },
            Data::Inline(ids) => {},
        }
    }
}

/// A payload outside of which bytes were changed is untouched.
pub proof fn lemma_payload_frame(b: Seq<u8>, c: Seq<u8>, s: int, typ: u8, card: int)
    requires
        payload_ok(b, s, typ, card),
        b.len() == c.len(),
        forall|k: int| s <= k < s + payload_size(b, s, typ, card) ==> b[k] == c[k],
    ensures
        payload_ok(c, s, typ, card),
        payload_set(c, s, typ, card) == payload_set(b, s, typ, card),
        payload_size(c, s, typ, card) == payload_size(b, s, typ, card),
{
    lemma_payload_same(b, s, c, s, typ, card);
}

} // verus!
