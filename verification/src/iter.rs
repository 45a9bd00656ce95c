//! Ascending iteration over the values of a frozen bitmap.
use vstd::prelude::*;

use crate::container::{
    array_at, payload_ok, payload_set, run_at, runs_at, runs_ok, runs_set, words_at, Run,
};
use crate::format::{
    inline_magic, read_index_entry, read_u16, read_u32, read_u64, u16_at, u64_at, IndexEntry,
    BITMAP_BYTES, BITMAP_WORDS, CT_ARRAY, CT_BITMAP, CT_RUN, INLINE_HEADER_SIZE,
};
use crate::frozen::{
    frozen_ok, inline_vals, lemma_std, std_base, std_blocks, std_entry, std_n, std_payload_ok,
};
use crate::model::{
    asc16, blocks_ok, blocks_set, lemma_blocks_skip, lemma_join, lemma_set32, lemma_split,
    one_block, Block,
};
use crate::view::FrozenBitmapView;
use crate::words::{bits_set, has_bit, lemma_wbit_lowest, lemma_wbit_zero, wbit};

verus! {

/// Ascending iterator over a frozen bitmap's values.
pub struct Iter<'a> {
    bytes: &'a [u8],
    mode: Mode,
    remaining: u64,
}

#[derive(Clone, Copy)]
enum Mode {
    Inline { pos: usize, count: usize },
    Standard { n: usize, data_base: usize, ci: usize, key: u16, cont: Cont },
}

/// Position inside one container. The run cursor counts in `u32`, so that an end
/// of 0xFFFF cannot wrap.
#[derive(Clone, Copy)]
enum Cont {
    Done,
    Array { start: usize, card: usize, i: usize },
    Bitmap { start: usize, word_idx: usize, word: u64 },
    Run { start: usize, nr: usize, ri: usize, cur: u32, end: u32 },
}

/// The runs after the first `k`.
spec fn later_runs(a: Seq<Run>, k: int) -> Set<u16> {
    runs_set(a.skip(k))
}

proof fn lemma_later_runs(a: Seq<Run>, k: int)
    requires
        runs_ok(a),
        0 <= k < a.len(),
    ensures
        forall|x: u16| #[trigger]
            later_runs(a, k).contains(x) == (a[k].has(x) || later_runs(a, k + 1).contains(x)),
        forall|x: u16| #[trigger] later_runs(a, k + 1).contains(x) ==> x > a[k].last(),
{
    assert forall|x: u16| #[trigger] later_runs(a, k + 1).contains(x) implies x > a[k].last()
        && later_runs(a, k).contains(x) by {
        let t = a.skip(k + 1);
        let i = choose|i: int| 0 <= i < t.len() && (#[trigger] t[i]).has(x);
        assert(a[k].last() < a[k + 1 + i].start);
        assert(a.skip(k)[i + 1].has(x));
    }
    assert forall|x: u16| #[trigger] later_runs(a, k).contains(x) == (a[k].has(x) || later_runs(
        a,
        k + 1,
    ).contains(x)) by {
        let s = a.skip(k);
        if later_runs(a, k).contains(x) {
            let i = choose|i: int| 0 <= i < s.len() && (#[trigger] s[i]).has(x);
            if i > 0 {
                assert(a.skip(k + 1)[i - 1].has(x));
            }
        }
        if a[k].has(x) {
            assert(s[0].has(x));
        }
    }
}

impl Cont {
    /// The cursor stands inside a valid payload of `b`.
    spec fn wf(self, b: Seq<u8>) -> bool {
        match self {
            Cont::Done => true,
            Cont::Array { start, card, i } => {
                &&& i <= card
                &&& start + 2 * card <= b.len()
                &&& asc16(array_at(b, start as int, card as int))
            },
            Cont::Bitmap { start, word_idx, word } => {
                &&& start + BITMAP_BYTES <= b.len()
                &&& word_idx < BITMAP_WORDS
                &&& forall|k: int|
                    0 <= k < 64 && #[trigger] wbit(word, k) ==> wbit(
                        words_at(b, start as int)[word_idx as int],
                        k,
                    )
            },
            Cont::Run { start, nr, ri, cur, end } => {
                let a = runs_at(b, start as int);
                &&& start + 2 <= b.len()
                &&& start + 2 + 4 * nr <= b.len()
                &&& nr == a.len()
                &&& runs_ok(a)
                &&& ri < nr
                &&& end == a[ri as int].last()
                &&& a[ri as int].start <= cur <= end + 1
            },
        }
    }

    /// The values still to come from this container.
    spec fn rest(self, b: Seq<u8>) -> Set<u16> {
        match self {
            Cont::Done => Set::empty(),
            Cont::Array { start, card, i } => array_at(b, start as int, card as int).skip(
                i as int,
            ).to_set(),
            Cont::Bitmap { start, word_idx, word } => Set::new(
                |x: u16|
                    {
                        ||| x as int / 64 == word_idx && wbit(word, x as int % 64)
                        ||| x as int / 64 > word_idx && has_bit(words_at(b, start as int), x)
                    },
            ),
            Cont::Run { start, nr, ri, cur, end } => Set::new(
                |x: u16|
                    cur <= x <= end || later_runs(runs_at(b, start as int), ri + 1).contains(x),
            ),
        }
    }

    /// The next value of the container, if any, and the cursor past it.
    fn next_lo(self, bytes: &[u8]) -> (r: (Option<u16>, Cont))
        requires
            self.wf(bytes@),
        ensures
            r.1.wf(bytes@),
            match r.0 {
                None => self.rest(bytes@) == Set::<u16>::empty(),
                Some(v) => {
                    &&& self.rest(bytes@).contains(v)
                    &&& forall|x: u16| #[trigger] self.rest(bytes@).contains(x) ==> v <= x
                    &&& r.1.rest(bytes@) == self.rest(bytes@).remove(v)
                },
            },
    {
        assert(bytes@.len() == bytes.len());
        match self {
            Cont::Done => (None, Cont::Done),
            Cont::Array { start, card, i } => {
                let ghost a = array_at(bytes@, start as int, card as int);
                if i >= card {
                    assert(self.rest(bytes@) =~= Set::<u16>::empty());
                    return (None, self);
                }
                let v: u16 = read_u16(bytes, start + i * 2);
                let next: Cont = Cont::Array { start, card, i: i + 1 };
                proof {
                    let (s, t) = (a.skip(i as int), a.skip(i + 1));
                    assert(v == a[i as int] && s[0] == v);
                    assert forall|x: u16| #[trigger] s.contains(x) implies v <= x by {
                        let k = choose|k: int| 0 <= k < s.len() && s[k] == x;
                        assert(a[i as int] <= a[i + k]);
                    }
                    assert forall|x: u16| t.contains(x) == (s.contains(x) && x != v) by {
                        if t.contains(x) {
                            let k = choose|k: int| 0 <= k < t.len() && t[k] == x;
                            assert(s[k + 1] == x);
                            assert(a[i as int] < a[i + 1 + k]);
                        }
                        if s.contains(x) && x != v {
                            let k = choose|k: int| 0 <= k < s.len() && s[k] == x;
                            assert(t[k - 1] == x);
                        }
                    }
                    assert(next.rest(bytes@) =~= self.rest(bytes@).remove(v));
                }
                (Some(v), next)
            },
            Cont::Bitmap { start, word_idx: w0, word: b0 } => {
                let ghost words = words_at(bytes@, start as int);
                let (mut w, mut word): (usize, u64) = (w0, b0);
                while word == 0
                    invariant
                        self == (Cont::Bitmap { start, word_idx: w0, word: b0 }),
                        words == words_at(bytes@, start as int),
                        start + BITMAP_BYTES <= bytes.len(),
                        (Cont::Bitmap { start, word_idx: w, word }).wf(bytes@),
                        (Cont::Bitmap { start, word_idx: w, word }).rest(bytes@) == self.rest(bytes@),
                    decreases BITMAP_WORDS - w,
                {
                    let ghost here = (Cont::Bitmap { start, word_idx: w, word }).rest(bytes@);
                    if w + 1 >= BITMAP_WORDS {
                        proof {
                            assert forall|x: u16| !here.contains(x) by {
                                lemma_wbit_zero(x as int % 64);
                            }
                            assert(here =~= Set::<u16>::empty());
                        }
                        return (None, Cont::Bitmap { start, word_idx: w, word });
                    }
                    w = w + 1;
                    word = read_u64(bytes, start + w * 8);
                    proof {
                        assert(word == words[w as int]);
                        let next = (Cont::Bitmap { start, word_idx: w, word }).rest(bytes@);
                        assert forall|x: u16| here.contains(x) == next.contains(x) by {
                            lemma_wbit_zero(x as int % 64);
                        }
                        assert(here =~= next);
                    }
                }
                let tz: u32 = word.trailing_zeros();
                let rest: u64 = word & (word - 1);
                proof {
                    lemma_wbit_lowest(word, 0);
                }
                let v: u16 = (w * 64) as u16 + tz as u16;
                let next: Cont = Cont::Bitmap { start, word_idx: w, word: rest };
                proof {
                    let here = (Cont::Bitmap { start, word_idx: w, word }).rest(bytes@);
                    assert(v as int / 64 == w && v as int % 64 == tz);
                    assert forall|k: int| 0 <= k < 64 && #[trigger] wbit(rest, k) implies wbit(
                        words[w as int],
                        k,
                    ) by {
                        lemma_wbit_lowest(word, k);
                        assert(wbit(word, k));
                    }
                    assert forall|x: u16| #[trigger] here.contains(x) implies v <= x by {
                        if x as int / 64 == w {
                            lemma_wbit_lowest(word, x as int % 64);
                        }
                    }
                    let there = next.rest(bytes@);
                    assert forall|x: u16| #[trigger]
                        there.contains(x) == here.remove(v).contains(x) by {
                        if x as int / 64 == w {
                            lemma_wbit_lowest(word, x as int % 64);
                        }
                    }
                    assert(there =~= here.remove(v));
                }
                (Some(v), next)
            },
            Cont::Run { start, nr, ri: r0, cur: c0, end: e0 } => {
                let ghost a = runs_at(bytes@, start as int);
                let (mut ri, mut cur, mut end): (usize, u32, u32) = (r0, c0, e0);
                proof {
                    assert(a[r0 as int].wf());
                    lemma_later_runs(a, r0 as int);
                }
                if cur > end {
                    if ri + 1 >= nr {
                        proof {
                            assert(a.skip(ri + 1).len() == 0);
                            assert(self.rest(bytes@) =~= Set::<u16>::empty());
                        }
                        return (None, self);
                    }
                    ri = ri + 1;
                    let off: usize = start + 2 + ri * 4;
                    assert(a[ri as int] == run_at(bytes@, off as int));
                    assert(a[ri as int].wf());
                    cur = read_u16(bytes, off) as u32;
                    end = cur + read_u16(bytes, off + 2) as u32;
                    proof {
                        lemma_later_runs(a, ri as int);
                        assert((Cont::Run { start, nr, ri, cur, end }).rest(bytes@) =~= self.rest(
                            bytes@,
                        ));
                    }
                }
                let ghost here = (Cont::Run { start, nr, ri, cur, end }).rest(bytes@);
                let v: u16 = cur as u16;
                let next: Cont = Cont::Run { start, nr, ri, cur: cur + 1, end };
                proof {
                    assert(here.contains(v));
                    assert(next.rest(bytes@) =~= here.remove(v));
                }
                (Some(v), next)
            },
        }
    }
}

impl Mode {
    /// The mode reads `b`, and its position is inside it.
    spec fn wf(self, b: Seq<u8>) -> bool {
        &&& frozen_ok(b)
        &&& match self {
            Mode::Inline { pos, count } => {
                &&& inline_magic(b)
                &&& count == u16_at(b, 2)
                &&& pos <= count
            },
            Mode::Standard { n, data_base, ci, key, cont } => {
                &&& !inline_magic(b)
                &&& n == std_n(b)
                &&& data_base == std_base(b)
                &&& ci <= n
                &&& cont.wf(b)
                &&& if ci == 0 {
                    cont is Done
                } else {
                    key == std_blocks(b)[ci - 1].key
                }
            },
        }
    }

    /// The values still to come.
    spec fn rest(self, b: Seq<u8>) -> Set<u32> {
        match self {
            Mode::Inline { pos, count } => inline_vals(b).skip(pos as int).to_set(),
            Mode::Standard { n, data_base, ci, key, cont } => one_block(
                Block { key, lows: cont.rest(b) },
            ).union(blocks_set(std_blocks(b).skip(ci as int))),
        }
    }

    /// The next value, if any, and the position past it.
    fn advance(self, bytes: &[u8]) -> (r: (Option<u32>, Mode))
        requires
            self.wf(bytes@),
        ensures
            r.1.wf(bytes@),
            match r.0 {
                None => self.rest(bytes@) == Set::<u32>::empty() && r.1.rest(bytes@) == Set::<
                    u32,
                >::empty(),
                Some(v) => {
                    &&& self.rest(bytes@).contains(v)
                    &&& forall|x: u32| #[trigger] self.rest(bytes@).contains(x) ==> v <= x
                    &&& r.1.rest(bytes@) == self.rest(bytes@).remove(v)
                },
            },
    {
        assert(bytes@.len() == bytes.len());
        let ghost b = bytes@;
        match self {
            Mode::Inline { pos, count } => {
                let ghost a = inline_vals(b);
                if pos >= count {
                    assert(self.rest(b) =~= Set::<u32>::empty());
                    return (None, self);
                }
                let v: u32 = read_u32(bytes, INLINE_HEADER_SIZE + pos * 4);
                let next: Mode = Mode::Inline { pos: pos + 1, count };
                proof {
                    let (s, t) = (a.skip(pos as int), a.skip(pos + 1));
                    assert(v == a[pos as int] && s[0] == v);
                    assert forall|x: u32| #[trigger] s.contains(x) implies v <= x by {
                        let k = choose|k: int| 0 <= k < s.len() && s[k] == x;
                        assert(a[pos as int] <= a[pos + k]);
                    }
                    assert forall|x: u32| t.contains(x) == (s.contains(x) && x != v) by {
                        if t.contains(x) {
                            let k = choose|k: int| 0 <= k < t.len() && t[k] == x;
                            assert(s[k + 1] == x);
                            assert(a[pos as int] < a[pos + 1 + k]);
                        }
                        if s.contains(x) && x != v {
                            let k = choose|k: int| 0 <= k < s.len() && s[k] == x;
                            assert(t[k - 1] == x);
                        }
                    }
                    assert(next.rest(b) =~= self.rest(b).remove(v));
                }
                (Some(v), next)
            },
            Mode::Standard { n, data_base, ci: ci0, key: key0, cont: cont0 } => {
                let (mut ci, mut key, mut cont): (usize, u16, Cont) = (ci0, key0, cont0);
                let ghost s = std_blocks(b);
                proof {
                    lemma_std(b);
                }
                loop
                    invariant
                        b == bytes@,
                        s == std_blocks(b),
                        blocks_ok(s),
                        bytes@.len() == bytes.len(),
                        (Mode::Standard { n, data_base, ci, key, cont }).wf(b),
                        (Mode::Standard { n, data_base, ci, key, cont }).rest(b) == self.rest(b),
                    decreases n - ci,
                {
                    let ghost here = Block { key, lows: cont.rest(b) };
                    let ghost later = blocks_set(s.skip(ci as int));
                    let (low, next): (Option<u16>, Cont) = cont.next_lo(bytes);
                    if let Some(l) = low {
                        let v: u32 = key as u32 * 65536 + l as u32;
                        let next_mode: Mode = Mode::Standard { n, data_base, ci, key, cont: next };
                        proof {
                            lemma_join(key, l);
                            assert(one_block(here).contains(v));
                            assert(ci > 0);
                            lemma_blocks_skip(s, ci - 1);
                            assert forall|x: u32| #[trigger] self.rest(b).contains(x) implies v
                                <= x by {
                                lemma_split(x);
                            }
                            let after = one_block(Block { key, lows: next.rest(b) });
                            assert forall|x: u32|
                                after.union(later).contains(x) == self.rest(b).remove(v).contains(
                                    x,
                                ) by {
                                lemma_split(x);
                            }
                            assert(next_mode.rest(b) =~= self.rest(b).remove(v));
                        }
                        return (Some(v), next_mode);
                    }
                    assert(one_block(here) =~= Set::<u32>::empty());
                    if ci >= n {
                        proof {
                            assert(s.skip(ci as int).len() == 0);
                            assert(later =~= Set::<u32>::empty());
                            assert(self.rest(b) =~= Set::<u32>::empty());
                        }
                        return (None, Mode::Standard { n, data_base, ci, key, cont });
                    }
                    let e: IndexEntry = read_index_entry(bytes, n, ci);
                    proof {
                        assert(e == std_entry(b, ci as int));
                        assert(std_payload_ok(b, ci as int));
                        lemma_blocks_skip(s, ci as int);
                    }
                    let start: usize = data_base + e.data_offset as usize;
                    cont = Cont::open(bytes, &e, start);
                    key = e.key;
                    ci = ci + 1;
                    proof {
                        assert(Block { key, lows: cont.rest(b) } == s[ci - 1]);
                        assert((Mode::Standard { n, data_base, ci, key, cont }).rest(b)
                            =~= self.rest(b));
                    }
                }
            },
        }
    }
}

impl Cont {
    /// A cursor at the start of a container's payload.
    fn open(bytes: &[u8], e: &IndexEntry, start: usize) -> (r: Cont)
        requires
            e.typ <= CT_RUN,
            payload_ok(bytes@, start as int, e.typ, e.cardinality as int),
            start <= bytes.len(),
        ensures
            r.wf(bytes@),
            r.rest(bytes@) == payload_set(bytes@, start as int, e.typ, e.cardinality as int),
    {
        let ghost b = bytes@;
        if e.typ == CT_ARRAY {
            let r: Cont = Cont::Array { start, card: e.cardinality as usize, i: 0 };
            proof {
                let a = array_at(b, start as int, e.cardinality as int);
                assert(a.skip(0) =~= a);
            }
            r
        } else if e.typ == CT_BITMAP {
            let r: Cont = Cont::Bitmap { start, word_idx: 0, word: read_u64(bytes, start) };
            proof {
                let w = words_at(b, start as int);
                assert(u64_at(b, start as int) == w[0]);
                assert forall|x: u16| r.rest(b).contains(x) == bits_set(w).contains(x) by {}
                assert(r.rest(b) =~= bits_set(w));
            }
            r
        } else {
            let nr: usize = read_u16(bytes, start) as usize;
            let cur: u32 = read_u16(bytes, start + 2) as u32;
            let end: u32 = cur + read_u16(bytes, start + 4) as u32;
            let r: Cont = Cont::Run { start, nr, ri: 0, cur, end };
            proof {
                let a = runs_at(b, start as int);
                assert(a[0] == run_at(b, start + 2));
                assert(a[0].wf());
                lemma_later_runs(a, 0);
                assert(a.skip(0) =~= a);
                assert forall|x: u16| r.rest(b).contains(x) == runs_set(a).contains(x) by {
                    assert(later_runs(a, 0).contains(x) == (a[0].has(x) || later_runs(a, 1).contains(
                        x,
                    )));
                }
                assert(r.rest(b) =~= runs_set(a));
            }
            r
        }
    }
}

impl<'a> Iter<'a> {
    #[verifier::type_invariant]
    closed spec fn inv(self) -> bool {
        &&& self.mode.wf(self.bytes@)
        &&& self.remaining == self.mode.rest(self.bytes@).len()
    }

    /// The values still to come.
    pub closed spec fn rest(self) -> Set<u32> {
        self.mode.rest(self.bytes@)
    }

    /// The smallest value still to come, which then no longer is; `None` once, and
    /// from then on, there is none.
    pub fn next(&mut self) -> (r: Option<u32>)
        ensures
            match r {
                None => old(self).rest() == Set::<u32>::empty() && final(self).rest() == Set::<
                    u32,
                >::empty(),
                Some(v) => {
                    &&& old(self).rest().contains(v)
                    &&& forall|x: u32| #[trigger] old(self).rest().contains(x) ==> v <= x
                    &&& final(self).rest() == old(self).rest().remove(v)
                },
            },
    {
        proof {
            use_type_invariant(&*self);
            lemma_set32(self.rest());
        }
        let (bytes, remaining): (&'a [u8], u64) = (self.bytes, self.remaining);
        let (r, mode): (Option<u32>, Mode) = self.mode.advance(bytes);
        match r {
            Some(v) => {
                *self = Iter { bytes, mode, remaining: remaining - 1 };
            },
            None => {
                *self = Iter { bytes, mode, remaining };
            },
        }
        r
    }

    /// Bounds on the number of values still to come: exact where a `usize` holds it.
    pub fn size_hint(&self) -> (r: (usize, Option<usize>))
        ensures
            self.rest().len() <= usize::MAX ==> r.0 == self.rest().len() && r.1 == Some(r.0),
            self.rest().len() > usize::MAX ==> r.0 == usize::MAX && r.1 is None,
    {
        proof {
            use_type_invariant(self);
        }
        if self.remaining <= usize::MAX as u64 {
            (self.remaining as usize, Some(self.remaining as usize))
        } else {
            (usize::MAX, None)
        }
    }
}

impl<'a> FrozenBitmapView<'a> {
    /// Iterate all values in ascending order.
    pub fn iter(&self) -> (r: Iter<'a>)
        ensures
            r.rest() == self@,
    {
        let bytes: &'a [u8] = self.as_bytes();
        let remaining: u64 = self.len();
        let ghost b = bytes@;
        match self.standard_dims() {
            Some((n, data_base)) => {
                let mode: Mode = Mode::Standard { n, data_base, ci: 0, key: 0, cont: Cont::Done };
                proof {
                    assert(std_blocks(b).skip(0) =~= std_blocks(b));
                    assert(mode.rest(b) =~= self@);
                }
                Iter { bytes, mode, remaining }
            },
            None => {
                let count: usize = read_u16(bytes, 2) as usize;
                let mode: Mode = Mode::Inline { pos: 0, count };
                assert(inline_vals(b).skip(0) =~= inline_vals(b));
                Iter { bytes, mode, remaining }
            },
        }
    }

    /// The same as [`iter`](Self::iter).
    pub fn into_iter(self) -> (r: Iter<'a>)
        ensures
            r.rest() == self@,
    {
        self.iter()
    }
}

} // verus!
