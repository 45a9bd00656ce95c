//! What every fold shares: loading a container, combining it into an accumulator, and
//! finishing the accumulator off.
use vstd::prelude::*;

use crate::arrays::{array_diff, array_intersect, array_union};
use crate::container::{lows, runs_ok, runs_set, Bitmap, Data, Run};
use crate::cursor::ContainerRef;
use crate::format::{ARRAY_MAX_SIZE, BITMAP_WORDS, CT_ARRAY, CT_BITMAP, CT_RUN, MAX_RUNS};
use crate::model::{asc16, lemma_asc16_len, lemma_lists_len, lemma_set16, lists};
use crate::plan::lemma_refs_any_next;
use crate::run;
use crate::walk::{refs_all, refs_any, refs_ok};
use crate::words;
use crate::words::bits_set;
use vstd::slice::slice_subrange;

verus! {

/// Every container is run-encoded, and there is one: the precondition for a native run
/// fold.
pub fn all_runs(refs: &[ContainerRef]) -> (r: bool)
    ensures
        r == (refs.len() > 0 && forall|i: int|
            0 <= i < refs.len() ==> (#[trigger] refs@[i]).typ == CT_RUN),
{
    if refs.len() == 0 {
        return false;
    }
    let mut i: usize = 0;
    while i < refs.len()
        invariant
            i <= refs.len(),
            forall|k: int| 0 <= k < i ==> (#[trigger] refs@[k]).typ == CT_RUN,
        decreases refs.len() - i,
    {
        if refs[i].typ != CT_RUN {
            return false;
        }
        i = i + 1;
    }
    true
}

/// The runs of a run container.
pub fn as_runs(r: &ContainerRef) -> (v: Vec<Run>)
    requires
        r.wf(),
        r.typ == CT_RUN,
    ensures
        runs_ok(v@),
        runs_set(v@) == r.lows(),
        v.len() <= MAX_RUNS,
        2 + 4 * v.len() == r.data@.len(),
{
    match r.typed() {
        Data::Run(v) => v,
        _ => Vec::new(),
    }
}

/// A container's values as a sorted array.
pub fn load_array(data: &Data) -> (r: Vec<u16>)
    requires
        data.wf(),
    ensures
        asc16(r@),
        r@.to_set() == data.set(),
        r.len() == data.set().len(),
{
    let mut v: Vec<u16> = Vec::new();
    data.for_each(&mut v);
    proof {
        data.lemma_listing();
        assert(v@ =~= data.listing());
    }
    v
}

/// A container as a bitmap.
pub fn load_bitmap(data: Data) -> (r: Box<Bitmap>)
    requires
        data.wf(),
    ensures
        bits_set((*r)@) == data.set(),
{
    match data {
        Data::Bitmap(b) => b,
        d => {
            let mut b: Box<Bitmap> = Box::new([0u64; BITMAP_WORDS]);
            words::clear(&mut *b);
            or_into(&mut *b, &d);
            assert(bits_set((*b)@) =~= d.set());
            b
        },
    }
}

/// `dst |= data`.
pub fn or_into(dst: &mut Bitmap, data: &Data)
    requires
        data.wf(),
    ensures
        bits_set(final(dst)@) == bits_set(old(dst)@).union(data.set()),
{
    match data {
        Data::Array(a) => words::set_values(dst, a.as_slice()),
        Data::Run(r) => words::set_runs(dst, r.as_slice()),
        Data::Bitmap(b) => words::or(dst, &**b),
        Data::Inline(ids) => {
            let mut i: usize = 0;
            let ghost s = lows(ids@);
            assert(bits_set(dst@) =~= bits_set(old(dst)@).union(s.take(0).to_set()));
            while i < ids.len()
                invariant
                    i <= ids.len(),
                    s == lows(ids@),
                    bits_set(dst@) == bits_set(old(dst)@).union(s.take(i as int).to_set()),
                decreases ids.len() - i,
            {
                let v: u16 = (ids[i] % 65536) as u16;
                words::set_value(dst, v);
                proof {
                    assert(s[i as int] == v);
                    assert(s.take(i + 1) =~= s.take(i as int).push(v));
                    words::lemma_push_to_set(s.take(i as int), v);
                    assert(bits_set(dst@) =~= bits_set(old(dst)@).union(s.take(i + 1).to_set()));
                }
                i = i + 1;
            }
            assert(s.take(i as int) =~= s);
        },
    }
}

/// `dst &= !data`.
pub fn clear_into(dst: &mut Bitmap, data: &Data)
    requires
        data.wf(),
    ensures
        bits_set(final(dst)@) == bits_set(old(dst)@).difference(data.set()),
{
    match data {
        Data::Array(a) => words::clear_values(dst, a.as_slice()),
        Data::Run(r) => words::clear_runs(dst, r.as_slice()),
        Data::Bitmap(b) => words::andnot(dst, &**b),
        Data::Inline(ids) => {
            let mut i: usize = 0;
            let ghost s = lows(ids@);
            assert(bits_set(dst@) =~= bits_set(old(dst)@).difference(s.take(0).to_set()));
            while i < ids.len()
                invariant
                    i <= ids.len(),
                    s == lows(ids@),
                    bits_set(dst@) == bits_set(old(dst)@).difference(s.take(i as int).to_set()),
                decreases ids.len() - i,
            {
                let v: u16 = (ids[i] % 65536) as u16;
                words::clear_value(dst, v);
                proof {
                    assert(s[i as int] == v);
                    assert(s.take(i + 1) =~= s.take(i as int).push(v));
                    words::lemma_push_to_set(s.take(i as int), v);
                    assert(bits_set(dst@) =~= bits_set(old(dst)@).difference(s.take(i + 1).to_set()));
                }
                i = i + 1;
            }
            assert(s.take(i as int) =~= s);
        },
    }
}

/// `dst &= data`, with a count of the result. A partner that is no bitmap is made one
/// first.
pub fn bitmap_and_count(dst: &mut Bitmap, data: Data) -> (r: u32)
    requires
        data.wf(),
    ensures
        bits_set(final(dst)@) == bits_set(old(dst)@).intersect(data.set()),
        r == bits_set(final(dst)@).len(),
{
    let tmp: Box<Bitmap> = load_bitmap(data);
    words::and_count(dst, &*tmp)
}

/// [`or_into`] with a count of the result.
pub fn or_into_count(dst: &mut Bitmap, data: &Data) -> (r: u32)
    requires
        data.wf(),
    ensures
        bits_set(final(dst)@) == bits_set(old(dst)@).union(data.set()),
        r == bits_set(final(dst)@).len(),
{
    match data {
        Data::Bitmap(b) => words::or_count(dst, &**b),
        d => {
            or_into(dst, d);
            words::popcount(&*dst)
        },
    }
}

/// [`clear_into`] with a count of the result.
pub fn clear_into_count(dst: &mut Bitmap, data: &Data) -> (r: u32)
    requires
        data.wf(),
    ensures
        bits_set(final(dst)@) == bits_set(old(dst)@).difference(data.set()),
        r == bits_set(final(dst)@).len(),
{
    match data {
        Data::Bitmap(b) => words::andnot_count(dst, &**b),
        d => {
            clear_into(dst, d);
            words::popcount(&*dst)
        },
    }
}

/// Form that a bitmap of `n` values finishes as.
pub open spec fn bitmap_form(n: nat) -> u8 {
    if 0 < n <= ARRAY_MAX_SIZE / 2 {
        CT_ARRAY
    } else {
        CT_BITMAP
    }
}

/// Finish a bitmap accumulator: an array when sparse enough, else the bitmap. The
/// boundary is half the array limit: above it, extraction costs more than it saves.
pub fn finish_bitmap(b: Box<Bitmap>, card: u32) -> (r: Data)
    requires
        card == bits_set((*b)@).len(),
    ensures
        r.wf(),
        r.set() == bits_set((*b)@),
        r.spec_typ() == bitmap_form(card as nat),
        r matches Data::Array(a) ==> a.len() == card,
{
    if card == 0 || card as usize > ARRAY_MAX_SIZE / 2 {
        return Data::Bitmap(b);
    }
    let d: Data = Data::Bitmap(b);
    let v: Vec<u16> = load_array(&d);
    Data::Array(v)
}

// --- filtering an array in place -------------------------------------------------

/// The first `w` entries of `acc` are the elements of `t` among the first `r` of `s`.
spec fn kept(acc: Seq<u16>, w: int, s: Seq<u16>, r: int, t: Set<u16>) -> bool {
    &&& 0 <= w <= r <= s.len() <= acc.len()
    &&& asc16(acc.take(w))
    &&& acc.take(w).to_set() == s.take(r).to_set().intersect(t)
    &&& forall|k: int| r <= k < s.len() ==> acc[k] == s[k]
}

proof fn lemma_kept(acc: Seq<u16>, w: int, s: Seq<u16>, r: int, t: Set<u16>)
    requires
        kept(acc, w, s, r, t),
        asc16(s),
        r < s.len(),
    ensures
        acc[r] == s[r],
        t.contains(s[r]) ==> kept(acc.update(w, s[r]), w + 1, s, r + 1, t),
        !t.contains(s[r]) ==> kept(acc, w, s, r + 1, t),
        !t.contains(s[r]) ==> kept(acc.update(w, s[r]), w, s, r + 1, t),
{
    let v = s[r];
    assert(s.take(r + 1) =~= s.take(r).push(v));
    words::lemma_push_to_set(s.take(r), v);
    let a = acc.update(w, v);
    assert(a.take(w) =~= acc.take(w));
    if t.contains(v) {
        assert(a.take(w + 1) =~= acc.take(w).push(v));
        words::lemma_push_to_set(acc.take(w), v);
        assert(a.take(w + 1).to_set() =~= s.take(r + 1).to_set().intersect(t));
        let z = a.take(w + 1);
        assert forall|i: int, j: int| 0 <= i < j < z.len() implies z[i] < z[j] by {
            if j == w {
                let x = acc.take(w)[i];
                assert(acc.take(w).to_set().contains(x));
                assert(s.take(r).contains(x));
                let k = choose|k: int| 0 <= k < r && s.take(r)[k] == x;
                assert(s[k] < s[r]);
            } else {
                assert(acc.take(w)[i] < acc.take(w)[j]);
            }
        }
    } else {
        assert(acc.take(w).to_set() =~= s.take(r + 1).to_set().intersect(t));
    }
}

/// The values kept by a filter on membership in `t`.
pub open spec fn sifted(s: Set<u16>, t: Set<u16>, keep: bool) -> Set<u16> {
    if keep {
        s.intersect(t)
    } else {
        s.difference(t)
    }
}

/// Keep the first `card` values of the sorted `acc` that lie in `runs`, or those that do
/// not, in one pass.
pub fn retain_runs(acc: &mut [u16], card: u32, runs: &[Run], keep_inside: bool) -> (r: u32)
    requires
        card <= old(acc).len(),
        asc16(old(acc)@.take(card as int)),
        runs_ok(runs@),
    ensures
        final(acc).len() == old(acc).len(),
        lists(
            final(acc)@,
            r as int,
            sifted(old(acc)@.take(card as int).to_set(), runs_set(runs@), keep_inside),
        ),
{
    let n: usize = card as usize;
    let ghost s = acc@.take(n as int);
    let ghost t = if keep_inside { runs_set(runs@) } else { runs_set(runs@).complement() };
    let mut ri: usize = 0;
    let mut w: usize = 0;
    let mut i: usize = 0;
    assert(s.take(0).to_set().intersect(t) =~= acc@.take(0).to_set());
    while i < n
        invariant
            i <= n,
            n == s.len(),
            n == card,
            s == old(acc)@.take(n as int),
            asc16(s),
            acc.len() == old(acc).len(),
            n <= acc.len(),
            w <= i,
            runs_ok(runs@),
            t == (if keep_inside { runs_set(runs@) } else { runs_set(runs@).complement() }),
            ri <= runs.len(),
            i < n ==> forall|q: int| 0 <= q < ri ==> (#[trigger] runs@[q]).last() < s[i as int],
            kept(acc@, w as int, s, i as int, t),
        decreases n - i,
    {
        let v: u16 = acc[i];
        proof {
            lemma_kept(acc@, w as int, s, i as int, t);
        }
        while ri < runs.len() && runs[ri].end() < v
            invariant
                runs_ok(runs@),
                ri <= runs.len(),
                forall|q: int| 0 <= q < ri ==> (#[trigger] runs@[q]).last() < v,
            decreases runs.len() - ri,
        {
            ri = ri + 1;
        }
        let inside: bool = ri < runs.len() && runs[ri].start <= v;
        proof {
            assert(inside == runs_set(runs@).contains(v)) by {
                if inside {
                    assert(runs@[ri as int].has(v));
                }
                if runs_set(runs@).contains(v) {
                    let q = choose|q: int| 0 <= q < runs@.len() && (#[trigger] runs@[q]).has(v);
                    if q < ri {
                        assert(runs@[q].last() < v);
                    } else if q > ri {
                        assert(runs@[ri as int].last() < runs@[q].start);
                    }
                }
            }
            assert forall|q: int| 0 <= q < ri && i + 1 < n implies (#[trigger] runs@[q]).last() < s[i + 1] by {
                assert(s[i as int] < s[i + 1]);
            }
        }
        if inside == keep_inside {
            acc[w] = v;
            w = w + 1;
        }
        i = i + 1;
    }
    proof {
        assert(s.take(n as int) =~= s);
        assert(acc@.take(w as int).to_set() =~= sifted(s.to_set(), runs_set(runs@), keep_inside));
    }
    w as u32
}

/// Keep the first `card` values of the sorted `acc` that lie in `b`, or those that do not,
/// in place.
pub fn retain_bitmap(acc: &mut [u16], card: u32, b: &Bitmap, keep_inside: bool) -> (r: u32)
    requires
        card <= old(acc).len(),
        asc16(old(acc)@.take(card as int)),
    ensures
        final(acc).len() == old(acc).len(),
        lists(
            final(acc)@,
            r as int,
            sifted(old(acc)@.take(card as int).to_set(), bits_set(b@), keep_inside),
        ),
{
    let n: usize = card as usize;
    let ghost s = acc@.take(n as int);
    let ghost t = if keep_inside { bits_set(b@) } else { bits_set(b@).complement() };
    let mut w: usize = 0;
    let mut i: usize = 0;
    assert(s.take(0).to_set().intersect(t) =~= acc@.take(0).to_set());
    while i < n
        invariant
            i <= n,
            n == s.len(),
            n == card,
            s == old(acc)@.take(n as int),
            asc16(s),
            acc.len() == old(acc).len(),
            n <= acc.len(),
            w <= i,
            t == (if keep_inside { bits_set(b@) } else { bits_set(b@).complement() }),
            kept(acc@, w as int, s, i as int, t),
        decreases n - i,
    {
        let v: u16 = acc[i];
        proof {
            lemma_kept(acc@, w as int, s, i as int, t);
        }
        let hit: bool = words::test_value(b, v);
        acc[w] = v;
        if hit == keep_inside {
            w = w + 1;
        }
        i = i + 1;
    }
    proof {
        assert(s.take(n as int) =~= s);
        assert(acc@.take(w as int).to_set() =~= sifted(s.to_set(), bits_set(b@), keep_inside));
    }
    w as u32
}

// --- array accumulator -------------------------------------------------------------

/// Array accumulator of one key's fold. Merges write to the other of two buffers and
/// swap them; run and bitmap partners filter in place.
pub struct ArrayAcc {
    card: u32,
    cur: Vec<u16>,
    spare: Vec<u16>,
}

impl ArrayAcc {
    pub closed spec fn wf(self) -> bool {
        &&& self.card <= self.cur@.len()
        &&& self.cur@.len() == self.spare@.len()
        &&& asc16(self.cur@.take(self.card as int))
    }

    /// The values.
    pub closed spec fn set(self) -> Set<u16> {
        self.cur@.take(self.card as int).to_set()
    }

    /// How many values fit.
    pub closed spec fn room(self) -> int {
        self.cur@.len() as int
    }

    proof fn lemma_card(self)
        requires
            self.wf(),
        ensures
            self.card == self.set().len(),
            self.set().finite(),
            self.card <= self.room(),
    {
        lemma_asc16_len(self.cur@.take(self.card as int));
    }

    /// Number of values.
    pub fn card(&self) -> (r: u32)
        requires
            self.wf(),
        ensures
            r == self.set().len(),
            r <= self.room(),
    {
        proof {
            self.lemma_card();
        }
        self.card
    }

    /// An empty accumulator with room for `room` values.
    pub fn new(room: usize) -> (r: Self)
        ensures
            r.wf(),
            r.set() == Set::<u16>::empty(),
            r.room() == room,
    {
        let r: ArrayAcc = ArrayAcc { card: 0, cur: vec![0u16; room], spare: vec![0u16; room] };
        assert(r.cur@.take(0).to_set() =~= Set::<u16>::empty());
        r
    }

    /// Load a container.
    pub fn load(&mut self, data: &Data)
        requires
            old(self).wf(),
            data.wf(),
            data.set().len() <= old(self).room(),
        ensures
            final(self).wf(),
            final(self).room() == old(self).room(),
            final(self).set() == data.set(),
    {
        proof {
            data.lemma_listing();
        }
        let n: usize = data.write_sorted(self.cur.as_mut_slice());
        self.card = n as u32;
    }

    /// Load the intersection, union or difference of two arrays, straight from their
    /// sources.
    pub fn load_merged(&mut self, a: &[u16], b: &[u16], how: Merge)
        requires
            old(self).wf(),
            asc16(a@),
            asc16(b@),
            merged(a@, b@, how).len() <= old(self).room(),
        ensures
            final(self).wf(),
            final(self).room() == old(self).room(),
            final(self).set() == merged(a@, b@, how),
    {
        let n: usize = merge(a, b, self.cur.as_mut_slice(), how);
        proof {
            lemma_lists_len(self.cur@, n as int, merged(a@, b@, how));
            lemma_set16(merged(a@, b@, how));
        }
        self.card = n as u32;
    }

    /// Merge the accumulator with `b` into the other buffer and swap.
    fn merge(&mut self, b: &[u16], how: Merge)
        requires
            old(self).wf(),
            asc16(b@),
            merged_set(old(self).set(), b@.to_set(), how).len() <= old(self).room(),
        ensures
            final(self).wf(),
            final(self).room() == old(self).room(),
            final(self).set() == merged_set(old(self).set(), b@.to_set(), how),
    {
        let src: &[u16] = slice_subrange(self.cur.as_slice(), 0, self.card as usize);
        assert(src@ =~= self.cur@.take(self.card as int));
        let n: usize = merge(src, b, self.spare.as_mut_slice(), how);
        proof {
            let t = merged_set(old(self).set(), b@.to_set(), how);
            lemma_lists_len(self.spare@, n as int, t);
            lemma_set16(t);
        }
        std::mem::swap(&mut self.cur, &mut self.spare);
        self.card = n as u32;
    }

    /// AND (`keep`) or DIFF fold with one partner.
    pub fn fold(&mut self, partner: &Data, keep: bool)
        requires
            old(self).wf(),
            partner.wf(),
        ensures
            final(self).wf(),
            final(self).room() == old(self).room(),
            final(self).set() == sifted(old(self).set(), partner.set(), keep),
    {
        let how: Merge = if keep { Merge::And } else { Merge::Diff };
        let ghost t = sifted(self.set(), partner.set(), keep);
        proof {
            self.lemma_card();
            vstd::set_lib::lemma_len_subset(t, self.set());
        }
        match partner {
            Data::Array(b) => {
                self.merge(b.as_slice(), how);
            },
            Data::Run(runs) => {
                self.card = retain_runs(self.cur.as_mut_slice(), self.card, runs.as_slice(), keep);
            },
            Data::Bitmap(b) => {
                self.card = retain_bitmap(self.cur.as_mut_slice(), self.card, &**b, keep);
            },
            d => {
                // A key group's values are already sorted: stage them and merge.
                let staged: Vec<u16> = load_array(d);
                self.merge(staged.as_slice(), how);
            },
        }
    }

    /// OR fold with one partner: always a merge, a partner that is no array being
    /// extracted first.
    pub fn fold_union(&mut self, partner: &Data)
        requires
            old(self).wf(),
            partner.wf(),
            old(self).set().union(partner.set()).len() <= old(self).room(),
        ensures
            final(self).wf(),
            final(self).room() == old(self).room(),
            final(self).set() == old(self).set().union(partner.set()),
    {
        match partner {
            Data::Array(b) => {
                self.merge(b.as_slice(), Merge::Or);
            },
            d => {
                let staged: Vec<u16> = load_array(d);
                self.merge(staged.as_slice(), Merge::Or);
            },
        }
    }

    /// The accumulated values.
    pub fn finish(self) -> (r: Data)
        requires
            self.wf(),
        ensures
            r.wf(),
            r.set() == self.set(),
            r matches Data::Array(a) && a.len() == self.set().len(),
            self.set().len() <= self.room(),
    {
        proof {
            self.lemma_card();
        }
        let mut v: Vec<u16> = self.cur;
        v.truncate(self.card as usize);
        assert(v@ =~= self.cur@.take(self.card as int));
        Data::Array(v)
    }
}

/// A merge of two sorted arrays.
#[derive(Debug, Clone, Copy, PartialEq, Eq, Structural)]
pub enum Merge {
    And,
    Or,
    Diff,
}

/// What a merge of two sets leaves.
pub open spec fn merged_set(a: Set<u16>, b: Set<u16>, how: Merge) -> Set<u16> {
    match how {
        Merge::And => a.intersect(b),
        Merge::Or => a.union(b),
        Merge::Diff => a.difference(b),
    }
}

/// What a merge of two arrays leaves.
pub open spec fn merged(a: Seq<u16>, b: Seq<u16>, how: Merge) -> Set<u16> {
    merged_set(a.to_set(), b.to_set(), how)
}

/// Merge two sorted arrays.
fn merge(a: &[u16], b: &[u16], out: &mut [u16], how: Merge) -> (r: usize)
    requires
        asc16(a@),
        asc16(b@),
        merged(a@, b@, how).len() <= old(out).len(),
    ensures
        final(out).len() == old(out).len(),
        lists(final(out)@, r as int, merged(a@, b@, how)),
{
    match how {
        Merge::And => array_intersect(a, b, out),
        Merge::Or => array_union(a, b, out),
        Merge::Diff => array_diff(a, b, out),
    }
}

// --- folding the containers of one key ------------------------------------------------

/// What folding `refs` into `s` leaves.
pub open spec fn fold_set(s: Set<u16>, refs: Seq<ContainerRef>, how: Merge) -> Set<u16> {
    match how {
        Merge::And => s.intersect(refs_all(refs)),
        Merge::Or => s.union(refs_any(refs)),
        Merge::Diff => s.difference(refs_any(refs)),
    }
}

/// Folding nothing changes nothing.
pub proof fn lemma_fold_none(s: Set<u16>, refs: Seq<ContainerRef>, how: Merge)
    ensures
        fold_set(s, refs.take(0), how) == s,
        fold_set(s, Seq::<ContainerRef>::empty(), how) == s,
{
    assert(fold_set(s, refs.take(0), how) =~= s);
    assert(fold_set(s, Seq::<ContainerRef>::empty(), how) =~= s);
}

/// Folding one more container.
pub proof fn lemma_fold_next(s: Set<u16>, refs: Seq<ContainerRef>, i: int, how: Merge)
    requires
        0 <= i < refs.len(),
    ensures
        fold_set(s, refs.take(i + 1), how) == merged_set(
            fold_set(s, refs.take(i), how),
            refs[i].lows(),
            how,
        ),
        i + 1 == refs.len() ==> fold_set(s, refs.take(i + 1), how) == fold_set(s, refs, how),
{
    let (a, b) = (refs.take(i), refs.take(i + 1));
    lemma_refs_any_next(refs, i);
    assert forall|l: u16| refs_all(b).contains(l) == (refs_all(a).contains(l)
        && refs[i].lows().contains(l)) by {
        if refs_all(b).contains(l) {
            assert(b[i] == refs[i]);
            assert forall|k: int| 0 <= k < a.len() implies (#[trigger] a[k]).lows().contains(l) by {
                assert(b[k] == a[k]);
            }
        }
        if refs_all(a).contains(l) && refs[i].lows().contains(l) {
            assert forall|k: int| 0 <= k < b.len() implies (#[trigger] b[k]).lows().contains(l) by {
                if k < i {
                    assert(a[k] == b[k]);
                }
            }
        }
    }
    assert(refs_all(b) =~= refs_all(a).intersect(refs[i].lows()));
    assert(fold_set(s, b, how) =~= merged_set(fold_set(s, a, how), refs[i].lows(), how));
    if i + 1 == refs.len() {
        assert(b =~= refs);
    }
}

/// AND and DIFF only ever shrink, OR only ever grows.
pub proof fn lemma_fold_mono(s: Set<u16>, refs: Seq<ContainerRef>, i: int, how: Merge)
    requires
        0 <= i <= refs.len(),
    ensures
        how != Merge::Or ==> fold_set(s, refs, how).subset_of(fold_set(s, refs.take(i), how))
            && fold_set(s, refs.take(i), how).subset_of(s),
        how == Merge::Or ==> fold_set(s, refs.take(i), how).subset_of(fold_set(s, refs, how)),
        fold_set(s, refs.take(i), how).len() == 0 && how != Merge::Or ==> fold_set(s, refs, how)
            == fold_set(s, refs.take(i), how),
        how != Merge::Or ==> fold_set(s, refs.take(i), how).len() <= s.len(),
        how == Merge::Or ==> fold_set(s, refs.take(i), how).len() <= fold_set(s, refs, how).len(),
{
    let a = refs.take(i);
    assert forall|l: u16| refs_any(a).contains(l) implies refs_any(refs).contains(l) by {
        let k = choose|k: int| 0 <= k < a.len() && (#[trigger] a[k]).lows().contains(l);
        assert(refs[k] == a[k]);
    }
    assert forall|l: u16| refs_all(refs).contains(l) implies refs_all(a).contains(l) by {
        assert forall|k: int| 0 <= k < a.len() implies (#[trigger] a[k]).lows().contains(l) by {
            assert(refs[k] == a[k]);
        }
    }
    let (x, y) = (fold_set(s, refs, how), fold_set(s, a, how));
    lemma_set16(x);
    lemma_set16(y);
    lemma_set16(s);
    if how != Merge::Or {
        vstd::set_lib::lemma_len_subset(y, s);
        vstd::set_lib::lemma_len_subset(x, y);
        if y.len() == 0 {
            assert(y =~= Set::<u16>::empty());
            assert(x =~= y);
        }
    } else {
        vstd::set_lib::lemma_len_subset(y, x);
    }
}

/// Fold with an array accumulator. Where the first two containers are arrays they merge
/// straight from their sources; an AND or DIFF that runs empty stops there.
pub fn array_fold(seed: &ContainerRef, rest: &[ContainerRef], room: usize, how: Merge) -> (r: Data)
    requires
        seed.wf(),
        refs_ok(rest@),
        how != Merge::Or ==> seed.lows().len() <= room,
        how == Merge::Or ==> fold_set(seed.lows(), rest@, how).len() <= room,
    ensures
        r.wf(),
        r.set() == fold_set(seed.lows(), rest@, how),
        r matches Data::Array(a) && a.len() == r.set().len() && a.len() <= room,
{
    let mut acc: ArrayAcc = ArrayAcc::new(room);
    let ghost s = seed.lows();
    let first: Data = seed.typed();
    let n: usize = rest.len();
    let mut i: usize = 0;
    proof {
        lemma_fold_none(s, rest@, how);
        lemma_fold_mono(s, rest@, 0, how);
    }
    let mut direct: bool = false;
    if n > 0 {
        assert(rest@[0].wf());
        let second: Data = rest[0].typed();
        match (&first, &second) {
            (Data::Array(a), Data::Array(b)) => {
                proof {
                    lemma_fold_next(s, rest@, 0, how);
                    lemma_fold_mono(s, rest@, 1, how);
                }
                acc.load_merged(a.as_slice(), b.as_slice(), how);
                direct = true;
            },
            _ => {},
        }
    }
    if direct {
        i = 1;
    } else {
        acc.load(&first);
    }
    while i < n
        invariant
            acc.wf(),
            acc.room() == room,
            i <= n,
            n == rest.len(),
            refs_ok(rest@),
            s == seed.lows(),
            acc.set() == fold_set(s, rest@.take(i as int), how),
            how != Merge::Or ==> s.len() <= room,
            how == Merge::Or ==> fold_set(s, rest@, how).len() <= room,
        decreases n - i,
    {
        assert(rest@[i as int].wf());
        proof {
            lemma_fold_next(s, rest@, i as int, how);
            lemma_fold_mono(s, rest@, i as int, how);
            lemma_fold_mono(s, rest@, i + 1, how);
        }
        match how {
            Merge::Or => {
                acc.fold_union(&rest[i].typed());
            },
            _ => {
                if acc.card() == 0 {
                    return acc.finish();
                }
                let keep: bool = match how {
                    Merge::And => true,
                    _ => false,
                };
                acc.fold(&rest[i].typed(), keep);
            },
        }
        i = i + 1;
    }
    assert(rest@.take(n as int) =~= rest@);
    acc.finish()
}

/// Runs that a container can add to a run accumulator.
pub open spec fn weight(r: ContainerRef) -> int {
    if r.typ == CT_RUN {
        (r.data@.len() - 2) / 4
    } else {
        r.card as int
    }
}

/// Runs that the first `n` containers can add.
pub open spec fn weights(refs: Seq<ContainerRef>, n: int) -> int
    decreases n,
{
    if n <= 0 {
        0
    } else {
        weights(refs, n - 1) + weight(refs[n - 1])
    }
}

pub proof fn lemma_weights(refs: Seq<ContainerRef>, i: int, n: int)
    requires
        refs_ok(refs),
        0 <= i <= n <= refs.len(),
    ensures
        weights(refs, i) <= weights(refs, n),
    decreases n - i,
{
    if i < n {
        lemma_weights(refs, i, n - 1);
        assert(refs[n - 1].wf());
    }
}

/// The first container and the others.
pub proof fn lemma_weights_head(refs: Seq<ContainerRef>, n: int)
    requires
        1 <= n <= refs.len(),
    ensures
        weights(refs, n) == weight(refs[0]) + weights(refs.skip(1), n - 1),
    decreases n,
{
    if n > 1 {
        lemma_weights_head(refs, n - 1);
        assert(refs.skip(1)[n - 2] == refs[n - 1]);
    } else {
        assert(weights(refs, 0) == 0);
        assert(weights(refs, 1) == weights(refs, 0) + weight(refs[0]));
    }
}

/// One more partner for a run accumulator.
pub fn run_step(src: &Vec<Run>, partner: &Data, how: Merge) -> (r: (Vec<Run>, u32))
    requires
        runs_ok(src@),
        partner.wf(),
        partner is Run || partner is Array && how == Merge::Diff,
        src.len() <= MAX_RUNS,
        partner matches Data::Run(v) ==> v.len() <= MAX_RUNS,
        partner matches Data::Array(v) ==> v.len() <= 65536,
    ensures
        runs_ok(r.0@),
        runs_set(r.0@) == merged_set(runs_set(src@), partner.set(), how),
        r.1 == runs_set(r.0@).len(),
        partner matches Data::Run(v) ==> r.0.len() <= src.len() + v.len(),
        partner matches Data::Array(v) ==> r.0.len() <= src.len() + v.len(),
        how == Merge::Or ==> run::apart(r.0@),
{
    let none: Run = Run { start: 0, len: 0 };
    match partner {
        Data::Run(v) => {
            let mut out: Vec<Run> = vec![none; src.len() + v.len()];
            let (nr, card): (usize, u32) = match how {
                Merge::And => run::intersect(src.as_slice(), v.as_slice(), out.as_mut_slice()),
                Merge::Or => run::union(src.as_slice(), v.as_slice(), out.as_mut_slice()),
                Merge::Diff => run::diff(src.as_slice(), v.as_slice(), out.as_mut_slice()),
            };
            out.truncate(nr);
            (out, card)
        },
        Data::Array(v) => {
            let mut out: Vec<Run> = vec![none; src.len() + v.len()];
            let (nr, card): (usize, u32) = run::diff_array(src.as_slice(), v.as_slice(), out.as_mut_slice());
            out.truncate(nr);
            (out, card)
        },
        _ => (Vec::new(), 0),
    }
}

/// Fold `seed`, then `rest`, keeping runs: no expansion to a bitmap.
pub fn run_fold(seed: &ContainerRef, rest: &[ContainerRef], how: Merge) -> (r: Data)
    requires
        seed.wf(),
        seed.typ == CT_RUN,
        refs_ok(rest@),
        forall|i: int|
            0 <= i < rest.len() ==> (#[trigger] rest@[i]).typ == CT_RUN || rest@[i].typ == CT_ARRAY
                && how == Merge::Diff,
        weight(*seed) + weights(rest@, rest.len() as int) <= MAX_RUNS,
    ensures
        r.wf(),
        r.set() == fold_set(seed.lows(), rest@, how),
        r matches Data::Run(v) && v.len() <= MAX_RUNS,
{
    let mut runs: Vec<Run> = as_runs(seed);
    let mut card: u32 = seed.card;
    let ghost s = seed.lows();
    let n: usize = rest.len();
    let mut i: usize = 0;
    proof {
        lemma_fold_none(s, rest@, how);
        crate::container::lemma_payload_len(seed.data@, 0, seed.typ, seed.card as int);
        lemma_weights(rest@, 0, n as int);
    }
    while i < n
        invariant
            i <= n,
            n == rest.len(),
            refs_ok(rest@),
            forall|i: int|
                0 <= i < rest.len() ==> (#[trigger] rest@[i]).typ == CT_RUN || rest@[i].typ
                    == CT_ARRAY && how == Merge::Diff,
            s == seed.lows(),
            runs_ok(runs@),
            runs_set(runs@) == fold_set(s, rest@.take(i as int), how),
            card == runs_set(runs@).len(),
            runs.len() <= weight(*seed) + weights(rest@, i as int),
            weight(*seed) + weights(rest@, n as int) <= MAX_RUNS,
            runs.len() <= MAX_RUNS,
        decreases n - i,
    {
        assert(rest@[i as int].wf());
        proof {
            lemma_fold_next(s, rest@, i as int, how);
            lemma_fold_mono(s, rest@, i as int, how);
            lemma_weights(rest@, i + 1, n as int);
        }
        let stop: bool = match how {
            Merge::Or => false,
            _ => card == 0,
        };
        if stop {
            return Data::Run(runs);
        }
        let p: Data = rest[i].typed();
        proof {
            p.lemma_listing();
            assert(p matches Data::Array(v) ==> v@ == p.listing());
        }
        let (next, c): (Vec<Run>, u32) = run_step(&runs, &p, how);
        runs = next;
        card = c;
        i = i + 1;
    }
    assert(rest@.take(n as int) =~= rest@);
    Data::Run(runs)
}

} // verus!
