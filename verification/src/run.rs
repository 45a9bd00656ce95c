//! Native operations on run containers: ascending, non-overlapping runs in and
//! out, so dense run-encoded containers combine without becoming bitmaps.
use vstd::prelude::*;

use crate::container::{
    lemma_runs_set_len, runs_card, runs_ok, runs_set, Run,
};
use crate::model::{asc16, lemma_set16, untouched};

verus! {

/// The run `start..=end`.
fn run(start: u32, end: u32) -> (r: Run)
    requires
        start <= end <= 0xFFFF,
    ensures
        r.wf(),
        r.start == start,
        r.last() == end,
{
    Run { start: start as u16, len: (end - start) as u16 }
}

/// The first `nr` entries of `out` are well-formed runs with `card` values in all,
/// and cover exactly `t`.
pub open spec fn covers(out: Seq<Run>, nr: int, card: int, t: Set<u16>) -> bool {
    &&& 0 <= nr <= out.len()
    &&& runs_ok(out.take(nr))
    &&& runs_set(out.take(nr)) == t
    &&& card == t.len()
}

/// No run touches the next one.
pub open spec fn apart(runs: Seq<Run>) -> bool {
    forall|i: int, j: int|
        0 <= i < j < runs.len() ==> (#[trigger] runs[i]).last() + 1 < (#[trigger] runs[j]).start
}

/// Start of run `i`, or past everything behind the last.
spec fn ahead(a: Seq<Run>, i: int) -> int {
    if i < a.len() {
        a[i].start as int
    } else {
        65538
    }
}

/// The first `nr` runs of `out` touch neither each other nor `to`.
spec fn spaced(out: Seq<Run>, nr: int, to: int) -> bool {
    &&& 0 <= nr <= out.len()
    &&& apart(out.take(nr))
    &&& nr > 0 ==> out[nr - 1].last() + 1 < to
}

/// Another run, which does not reach `next`.
proof fn lemma_spaced(out: Seq<Run>, nr: int, to: int, r: Run, next: int)
    requires
        spaced(out, nr, to),
        runs_ok(out.take(nr)),
        nr < out.len(),
        to <= r.start,
        r.last() + 1 < next,
    ensures
        spaced(out.update(nr, r), nr + 1, next),
{
    lemma_apart_push(out, nr, r, r.start - 1);
}

/// Runs that do not touch leave a gap before the next.
proof fn lemma_ahead(a: Seq<Run>, i: int)
    requires
        apart(a),
        runs_ok(a),
        0 <= i < a.len(),
    ensures
        a[i].last() + 1 < ahead(a, i + 1),
{
    assert(a[i].wf());
    if i + 1 < a.len() {
        assert(a[i].last() + 1 < a[i + 1].start);
    }
}

/// Progress: the first `nr` runs of `out` cover the elements of `t` below `bound`.
spec fn rdone(out: Seq<Run>, nr: int, card: int, t: Set<u16>, bound: int) -> bool {
    &&& 0 <= nr <= out.len()
    &&& runs_ok(out.take(nr))
    &&& nr > 0 ==> out[nr - 1].last() < bound
    &&& forall|x: u16|
        #![trigger runs_set(out.take(nr)).contains(x)]
        #![trigger t.contains(x)]
        runs_set(out.take(nr)).contains(x) <==> t.contains(x) && x < bound
    &&& card == runs_card(out.take(nr), nr)
}

/// Start of the run at `i`, or the end of the value space.
spec fn rhead(a: Seq<Run>, i: int) -> int {
    if i < a.len() {
        a[i].start as int
    } else {
        65536
    }
}

proof fn lemma_rdone_start(out: Seq<Run>, t: Set<u16>)
    ensures
        rdone(out, 0, 0, t, 0),
{
    assert(out.take(0).len() == 0);
}

proof fn lemma_rdone_skip(out: Seq<Run>, nr: int, card: int, t: Set<u16>, from: int, to: int)
    requires
        rdone(out, nr, card, t, from),
        from <= to,
        forall|x: u16| #[trigger] t.contains(x) ==> (x < from <==> x < to),
    ensures
        rdone(out, nr, card, t, to),
{
}

pub proof fn lemma_runs_card_prefix(a: Seq<Run>, b: Seq<Run>, k: int)
    requires
        forall|i: int| 0 <= i < k ==> a[i] == b[i],
    ensures
        runs_card(a, k) == runs_card(b, k),
    decreases k,
{
    if k > 0 {
        lemma_runs_card_prefix(a, b, k - 1);
    }
}

/// Between `bound` and its end, `r` is all of `t`.
proof fn lemma_rdone_emit(before: Seq<Run>, nr: int, card: int, t: Set<u16>, bound: int, r: Run)
    requires
        rdone(before, nr, card, t, bound),
        nr < before.len(),
        r.wf(),
        bound <= r.start,
        forall|x: u16| bound <= x <= r.last() ==> (#[trigger] t.contains(x) <==> r.start <= x),
    ensures
        rdone(before.update(nr, r), nr + 1, card + r.len + 1, t, r.last() + 1),
        card + r.len + 1 <= 65536,
{
    let after = before.update(nr, r);
    let (p, q) = (before.take(nr), after.take(nr + 1));
    assert(q =~= p.push(r));
    assert forall|i: int, j: int| 0 <= i < j < q.len() implies (#[trigger] q[i]).last() < (
    #[trigger] q[j]).start by {
        if j == nr {
            assert(p[i].last() <= p[nr - 1].last());
        }
    }
    assert forall|x: u16|
        #![trigger runs_set(q).contains(x)]
        #![trigger t.contains(x)]
        runs_set(q).contains(x) <==> t.contains(x) && x < r.last() + 1 by {
        if runs_set(q).contains(x) {
            let i = choose|i: int| 0 <= i < q.len() && (#[trigger] q[i]).has(x);
            if i < nr {
                assert(p[i].has(x));
                assert(runs_set(p).contains(x));
            }
        }
        if t.contains(x) && x < r.last() + 1 {
            if x < bound {
                assert(runs_set(p).contains(x));
                let i = choose|i: int| 0 <= i < p.len() && (#[trigger] p[i]).has(x);
                assert(q[i].has(x));
            } else {
                assert(q[nr].has(x));
            }
        }
    }
    lemma_runs_card_prefix(q, p, nr);
    lemma_runs_set_len(q);
    lemma_set16(runs_set(q));
}

proof fn lemma_rdone_end(out: Seq<Run>, nr: int, card: int, t: Set<u16>, bound: int)
    requires
        rdone(out, nr, card, t, bound),
        forall|x: u16| #[trigger] t.contains(x) ==> x < bound,
    ensures
        covers(out, nr, card, t),
{
    assert forall|x: u16| runs_set(out.take(nr)).contains(x) == t.contains(x) by {
        assert(runs_set(out.take(nr)).contains(x) <==> t.contains(x) && x < bound);
    }
    assert(runs_set(out.take(nr)) =~= t);
    lemma_runs_set_len(out.take(nr));
}

/// A value covered by `a` lies in one run; before the runs from `i` on it lies in
/// an earlier one.
proof fn lemma_in_run(a: Seq<Run>, x: u16) -> (i: int)
    requires
        runs_set(a).contains(x),
    ensures
        0 <= i < a.len(),
        a[i].has(x),
{
    choose|i: int| 0 <= i < a.len() && (#[trigger] a[i]).has(x)
}

/// The values common to `a` and `b`; returns the number of runs and of values.
pub fn intersect(a: &[Run], b: &[Run], out: &mut [Run]) -> (r: (usize, u32))
    requires
        runs_ok(a@),
        runs_ok(b@),
        a.len() + b.len() <= old(out).len(),
    ensures
        final(out).len() == old(out).len(),
        covers(final(out)@, r.0 as int, r.1 as int, runs_set(a@).intersect(runs_set(b@))),
        r.0 <= a.len() + b.len(),
        apart(a@) && apart(b@) ==> apart(final(out)@.take(r.0 as int)),
        untouched(old(out)@, final(out)@, r.0 as int),
{
    let ghost neat = apart(a@) && apart(b@);
    let ghost t = runs_set(a@).intersect(runs_set(b@));
    let (mut ai, mut bi, mut nr, mut card): (usize, usize, usize, u32) = (0, 0, 0, 0);
    let ghost mut bound: int = 0;
    proof {
        lemma_rdone_start(out@, t);
    }
    while ai < a.len() && bi < b.len()
        invariant
            runs_ok(a@),
            runs_ok(b@),
            ai <= a.len(),
            bi <= b.len(),
            t == runs_set(a@).intersect(runs_set(b@)),
            a.len() + b.len() <= out.len() == old(out).len(),
            untouched(old(out)@, out@, nr as int),
            nr <= ai + bi,
            bound <= rhead(a@, ai as int) || bound <= rhead(b@, bi as int),
            forall|i: int| 0 <= i < ai ==> (#[trigger] a[i]).last() < bound,
            forall|i: int| 0 <= i < bi ==> (#[trigger] b[i]).last() < bound,
            rdone(out@, nr as int, card as int, t, bound),
            neat == (apart(a@) && apart(b@)),
            neat ==> spaced(out@, nr as int, ahead(a@, ai as int)) || spaced(
                out@,
                nr as int,
                ahead(b@, bi as int),
            ),
        decreases a.len() - ai + b.len() - bi,
    {
        let (ra, rb): (Run, Run) = (a[ai], b[bi]);
        proof {
            if neat {
                lemma_ahead(a@, ai as int);
                lemma_ahead(b@, bi as int);
            }
        }
        let (as_, ae): (u32, u32) = (ra.start as u32, ra.end() as u32);
        let (bs, be): (u32, u32) = (rb.start as u32, rb.end() as u32);
        let lo: u32 = if as_ >= bs {
            as_
        } else {
            bs
        };
        let hi: u32 = if ae <= be {
            ae
        } else {
            be
        };
        let ghost before = out@;
        proof {
            assert forall|x: u16| bound <= x <= hi implies (#[trigger] t.contains(x) <==> lo <= x) by {
                if t.contains(x) {
                    let i = lemma_in_run(a@, x);
                    let j = lemma_in_run(b@, x);
                    if i < ai {
                        assert(a[i].last() < bound);
                    }
                    if j < bi {
                        assert(b[j].last() < bound);
                    }
                    if i > ai {
                        assert(a[ai as int].last() < a[i].start);
                    }
                    if j > bi {
                        assert(b[bi as int].last() < b[j].start);
                    }
                }
                if lo <= x {
                    assert(a@[ai as int].has(x) && b@[bi as int].has(x));
                }
            }
        }
        if lo <= hi {
            let r: Run = run(lo, hi);
            proof {
                lemma_rdone_emit(out@, nr as int, card as int, t, bound, r);
                if neat {
                    let to = if spaced(before, nr as int, ahead(a@, ai as int)) {
                        ahead(a@, ai as int)
                    } else {
                        ahead(b@, bi as int)
                    };
                    let next = if ae <= be {
                        ahead(a@, ai + 1)
                    } else {
                        ahead(b@, bi + 1)
                    };
                    lemma_spaced(before, nr as int, to, r, next);
                }
            }
            out[nr] = r;
            assert(out@ =~= before.update(nr as int, r));
            nr = nr + 1;
            card = card + (hi - lo + 1);
        } else {
            proof {
                if bound <= hi {
                    lemma_rdone_skip(out@, nr as int, card as int, t, bound, hi + 1);
                }
            }
        }
        proof {
            if bound <= hi + 1 {
                bound = hi + 1;
            }
        }
        if ae <= be {
            ai = ai + 1;
        } else {
            bi = bi + 1;
        }
    }
    proof {
        assert forall|x: u16| #[trigger] t.contains(x) implies x < bound by {
            let i = lemma_in_run(a@, x);
            let j = lemma_in_run(b@, x);
            if ai == a.len() {
                assert(a[i].last() < bound);
            } else {
                assert(b[j].last() < bound);
            }
        }
        lemma_rdone_end(out@, nr as int, card as int, t, bound);
    }
    (nr, card)
}

/// The values of `a` or `b`, overlapping and adjacent runs coalesced; returns the
/// number of runs and of values.
pub fn union(a: &[Run], b: &[Run], out: &mut [Run]) -> (r: (usize, u32))
    requires
        runs_ok(a@),
        runs_ok(b@),
        a.len() + b.len() <= old(out).len(),
    ensures
        final(out).len() == old(out).len(),
        covers(final(out)@, r.0 as int, r.1 as int, runs_set(a@).union(runs_set(b@))),
        r.0 <= a.len() + b.len(),
        apart(final(out)@.take(r.0 as int)),
        untouched(old(out)@, final(out)@, r.0 as int),
{
    let ghost t = runs_set(a@).union(runs_set(b@));
    if a.len() == 0 && b.len() == 0 {
        proof {
            lemma_rdone_start(out@, t);
            lemma_rdone_end(out@, 0, 0, t, 0);
        }
        return (0, 0);
    }
    let (mut ai, mut bi, mut nr, mut card): (usize, usize, usize, u32) = (0, 0, 0, 0);
    let (mut cs, mut ce): (u32, u32) = (0, 0);
    if b.len() == 0 || a.len() > 0 && a[0].start <= b[0].start {
        ai = 1;
        cs = a[0].start as u32;
        ce = a[0].end() as u32;
    } else {
        bi = 1;
        cs = b[0].start as u32;
        ce = b[0].end() as u32;
    }
    let ghost mut bound: int = 0;
    proof {
        lemma_rdone_start(out@, t);
        assert forall|x: u16| cs <= x <= ce implies #[trigger] t.contains(x) by {
            if ai == 1 {
                assert(a@[0].has(x));
            } else {
                assert(b@[0].has(x));
            }
        }
        assert(a@.skip(0) =~= a@ && b@.skip(0) =~= b@);
        lemma_from(a@, 0);
        lemma_from(b@, 0);
        assert forall|x: u16| #[trigger] t.contains(x) implies cs <= x <= ce || from(
            a@,
            ai as int,
        ).contains(x) || from(b@, bi as int).contains(x) by {
            assert(from(a@, 0).contains(x) || from(b@, 0).contains(x));
        }
        assert(apart(out@.take(0)));
    }
    while ai < a.len() || bi < b.len()
        invariant
            runs_ok(a@),
            runs_ok(b@),
            ai <= a.len(),
            bi <= b.len(),
            t == runs_set(a@).union(runs_set(b@)),
            a.len() + b.len() <= out.len() == old(out).len(),
            untouched(old(out)@, out@, nr as int),
            nr + 1 <= ai + bi,
            cs <= ce <= 0xFFFF,
            bound <= cs,
            nr > 0 ==> bound < cs,
            cs <= rhead(a@, ai as int),
            cs <= rhead(b@, bi as int),
            forall|x: u16| cs <= x <= ce ==> #[trigger] t.contains(x),
            forall|x: u16| #[trigger]
                t.contains(x) ==> x < bound || cs <= x <= ce || from(a@, ai as int).contains(x) || from(
                    b@,
                    bi as int,
                ).contains(x),
            apart(out@.take(nr as int)),
            rdone(out@, nr as int, card as int, t, bound),
        decreases a.len() - ai + b.len() - bi,
    {
        let take_a: bool = bi >= b.len() || ai < a.len() && a[ai].start <= b[bi].start;
        let next: Run = if take_a {
            a[ai]
        } else {
            b[bi]
        };
        let (ns, ne): (u32, u32) = (next.start as u32, next.end() as u32);
        let ghost before = out@;
        proof {
            assert forall|x: u16| ns <= x <= ne implies #[trigger] t.contains(x) by {
                if take_a {
                    assert(a@[ai as int].has(x));
                } else {
                    assert(b@[bi as int].has(x));
                }
            }
            lemma_from(a@, ai as int);
            lemma_from(b@, bi as int);
        }
        if take_a {
            ai = ai + 1;
        } else {
            bi = bi + 1;
        }
        if ns <= ce + 1 {
            if ne > ce {
                ce = ne;
            }
        } else {
            let r: Run = run(cs, ce);
            proof {
                lemma_rdone_emit(out@, nr as int, card as int, t, bound, r);
                lemma_apart_push(out@, nr as int, r, bound);
            }
            out[nr] = r;
            proof {
                assert(out@ =~= before.update(nr as int, r));
                bound = ce + 1;
            }
            card = card + (ce - cs + 1);
            nr = nr + 1;
            cs = ns;
            ce = ne;
        }
    }
    let r: Run = run(cs, ce);
    let ghost before = out@;
    proof {
        assert(a@.skip(ai as int).len() == 0 && b@.skip(bi as int).len() == 0);
        lemma_rdone_emit(out@, nr as int, card as int, t, bound, r);
        lemma_apart_push(out@, nr as int, r, bound);
    }
    out[nr] = r;
    proof {
        assert(out@ =~= before.update(nr as int, r));
        lemma_rdone_end(out@, nr + 1, card + ce - cs + 1, t, ce + 1);
    }
    (nr + 1, card + (ce - cs + 1))
}

/// The values of the runs from `i` on.
spec fn from(a: Seq<Run>, i: int) -> Set<u16> {
    runs_set(a.skip(i))
}

proof fn lemma_from(a: Seq<Run>, i: int)
    requires
        runs_ok(a),
        0 <= i <= a.len(),
    ensures
        forall|x: u16| #[trigger]
            from(a, i).contains(x) ==> i < a.len() && (a[i].has(x) || from(a, i + 1).contains(x)),
        forall|x: u16| #[trigger] from(a, i).contains(x) ==> x >= rhead(a, i),
{
    assert forall|x: u16| #[trigger] from(a, i).contains(x) implies i < a.len() && (a[i].has(x) || from(
        a,
        i + 1,
    ).contains(x)) && x >= rhead(a, i) by {
        let s = a.skip(i);
        let k = choose|k: int| 0 <= k < s.len() && (#[trigger] s[k]).has(x);
        assert(s[k] == a[i + k]);
        if k > 0 {
            assert(a[i].last() < a[i + k].start);
            assert(a.skip(i + 1)[k - 1].has(x));
        }
    }
}

proof fn lemma_apart_push(out: Seq<Run>, nr: int, r: Run, bound: int)
    requires
        0 <= nr < out.len(),
        runs_ok(out.take(nr)),
        apart(out.take(nr)),
        nr > 0 ==> out[nr - 1].last() < bound < r.start,
    ensures
        apart(out.update(nr, r).take(nr + 1)),
{
    let (p, q) = (out.take(nr), out.update(nr, r).take(nr + 1));
    assert(q =~= p.push(r));
    assert forall|i: int, j: int| 0 <= i < j < q.len() implies (#[trigger] q[i]).last() + 1 < (
    #[trigger] q[j]).start by {
        if j == nr {
            if i < nr - 1 {
                assert(p[i].last() < p[nr - 1].start);
            }
            assert(p[nr - 1] == out[nr - 1]);
        }
    }
}

/// `a` without `b`: each run of `a` loses the overlapping runs of `b`, and what is
/// left of it is emitted. Returns the number of runs and of values.
pub fn diff(a: &[Run], b: &[Run], out: &mut [Run]) -> (r: (usize, u32))
    requires
        runs_ok(a@),
        runs_ok(b@),
        a.len() + b.len() <= old(out).len(),
    ensures
        final(out).len() == old(out).len(),
        covers(final(out)@, r.0 as int, r.1 as int, runs_set(a@).difference(runs_set(b@))),
        r.0 <= a.len() + b.len(),
        apart(a@) ==> apart(final(out)@.take(r.0 as int)),
        untouched(old(out)@, final(out)@, r.0 as int),
{
    let ghost t = runs_set(a@).difference(runs_set(b@));
    let (mut ai, mut bi, mut nr, mut card): (usize, usize, usize, u32) = (0, 0, 0, 0);
    // `cut`: the runs of `b` that may have split a run of `a` come before it.
    let ghost mut cut: int = 0;
    proof {
        lemma_rdone_start(out@, t);
        lemma_diff_gap(a@, 0, t);
        lemma_rdone_skip(out@, 0, 0, t, 0, rhead(a@, 0));
    }
    while ai < a.len()
        invariant
            runs_ok(a@),
            runs_ok(b@),
            ai <= a.len(),
            bi <= b.len(),
            t == runs_set(a@).difference(runs_set(b@)),
            a.len() + b.len() <= out.len() == old(out).len(),
            untouched(old(out)@, out@, nr as int),
            0 <= cut <= b.len(),
            nr <= ai + cut,
            cut > 0 ==> b[cut - 1].start < rhead(a@, ai as int),
            forall|j: int| 0 <= j < bi ==> (#[trigger] b[j]).last() < rhead(a@, ai as int),
            rdone(out@, nr as int, card as int, t, rhead(a@, ai as int)),
            apart(a@) ==> spaced(out@, nr as int, ahead(a@, ai as int)),
        decreases a.len() - ai,
    {
        proof {
            if apart(a@) {
                lemma_ahead(a@, ai as int);
            }
        }
        let ar: Run = a[ai];
        let mut lo: u32 = ar.start as u32;
        let hi: u32 = ar.end() as u32;
        while bi < b.len() && (b[bi].end() as u32) < lo
            invariant
                runs_ok(b@),
                bi <= b.len(),
                lo == rhead(a@, ai as int),
                forall|j: int| 0 <= j < bi ==> (#[trigger] b[j]).last() < lo,
            decreases b.len() - bi,
        {
            bi = bi + 1;
        }
        let mut bj: usize = bi;
        while bj < b.len() && lo <= hi && b[bj].start as u32 <= hi
            invariant
                runs_ok(a@),
                runs_ok(b@),
                ai < a.len(),
                bj <= b.len(),
                t == runs_set(a@).difference(runs_set(b@)),
                a.len() + b.len() <= out.len() == old(out).len(),
            untouched(old(out)@, out@, nr as int),
                ar == a[ai as int],
                hi == ar.last(),
                ar.start <= lo <= 65536,
                0 <= cut <= b.len(),
                nr <= ai + cut,
                cut > 0 ==> b[cut - 1].start <= hi && (b[cut - 1].start < lo || cut <= bj),
                forall|j: int| 0 <= j < bj ==> (#[trigger] b[j]).last() < lo,
                bj < b.len() ==> b[bj as int].last() >= lo,
                rdone(out@, nr as int, card as int, t, if lo <= hi { lo as int } else { hi + 1 }),
                apart(a@) ==> spaced(out@, nr as int, lo as int),
            decreases b.len() - bj,
        {
            let rb: Run = b[bj];
            let (bs, be): (u32, u32) = (rb.start as u32, rb.end() as u32);
            let ghost before = out@;
            let ghost mut bound: int = lo as int;
            if bs > lo {
                let r: Run = run(lo, bs - 1);
                proof {
                    assert forall|x: u16| lo <= x <= r.last() implies (#[trigger] t.contains(x) <==> lo <= x) by {
                        assert(a@[ai as int].has(x));
                        if runs_set(b@).contains(x) {
                            let j = lemma_in_run(b@, x);
                            if j > bj {
                                assert(b[bj as int].last() < b[j].start);
                            } else if j < bj {
                                assert(b[j].last() < lo);
                            }
                        }
                    }
                    lemma_rdone_emit(out@, nr as int, card as int, t, bound, r);
                    if apart(a@) {
                        lemma_spaced(before, nr as int, lo as int, r, be + 1);
                    }
                    if cut > bj {
                        assert(b[bj as int].start <= b[cut - 1].start) by {
                            if bj < cut - 1 {
                                assert(b[bj as int].last() < b[cut - 1].start);
                            }
                        }
                    }
                    bound = bs as int;
                    cut = bj + 1;
                }
                out[nr] = r;
                assert(out@ =~= before.update(nr as int, r));
                card = card + (bs - lo);
                nr = nr + 1;
            }
            proof {
                let to = if be < hi { be + 1 } else { hi + 1 };
                assert forall|x: u16| #[trigger] t.contains(x) implies (x < bound <==> x < to) by {
                    if bound <= x < to {
                        assert(b@[bj as int].has(x));
                    }
                }
                lemma_rdone_skip(out@, nr as int, card as int, t, bound, to);
                assert forall|j: int| 0 <= j < bj + 1 implies (#[trigger] b[j]).last() < be + 1 by {
                    if j < bj {
                        assert(b[j].last() < b[bj as int].start);
                    }
                }
            }
            lo = be + 1;
            bj = bj + 1;
        }
        if lo <= hi {
            let r: Run = run(lo, hi);
            let ghost before = out@;
            proof {
                assert forall|x: u16| lo <= x <= r.last() implies (#[trigger] t.contains(x) <==> lo <= x) by {
                    assert(a@[ai as int].has(x));
                    if runs_set(b@).contains(x) {
                        let j = lemma_in_run(b@, x);
                        if j < bj {
                            assert(b[j].last() < lo);
                        } else if j > bj {
                            assert(b[bj as int].last() < b[j].start);
                        }
                    }
                }
                lemma_rdone_emit(out@, nr as int, card as int, t, lo as int, r);
                if apart(a@) {
                    lemma_spaced(before, nr as int, lo as int, r, ahead(a@, ai + 1));
                }
            }
            out[nr] = r;
            assert(out@ =~= before.update(nr as int, r));
            card = card + (hi - lo + 1);
            nr = nr + 1;
        }
        proof {
            lemma_diff_gap(a@, ai + 1, t);
            lemma_rdone_skip(out@, nr as int, card as int, t, hi + 1, rhead(a@, ai + 1));
            assert(hi < rhead(a@, ai + 1));
        }
        ai = ai + 1;
    }
    proof {
        lemma_rdone_end(out@, nr as int, card as int, t, 65536);
    }
    (nr, card)
}

/// Nothing covered by `a` lies between one run's end and the next run's start.
proof fn lemma_diff_gap(a: Seq<Run>, i: int, t: Set<u16>)
    requires
        runs_ok(a),
        0 <= i <= a.len(),
        forall|x: u16| #[trigger] t.contains(x) ==> runs_set(a).contains(x),
    ensures
        forall|x: u16| #[trigger]
            t.contains(x) ==> (x < (if i > 0 { a[i - 1].last() + 1 } else { 0 }) <==> x < rhead(a, i)),
        i > 0 ==> a[i - 1].last() < rhead(a, i),
{
    assert forall|x: u16| #[trigger] t.contains(x) implies (x < (if i > 0 {
        a[i - 1].last() + 1
    } else {
        0
    }) <==> x < rhead(a, i)) by {
        let k = lemma_in_run(a, x);
        if k < i - 1 {
            assert(a[k].last() < a[i - 1].start);
        }
        if k >= i && k > i {
            assert(a[i].last() < a[k].start);
        }
        if i > 0 && k >= i {
            assert(a[i - 1].last() < a[k].start);
        }
        if i > 0 && i < a.len() {
            assert(a[i - 1].last() < a[i].start);
        }
    }
    if 0 < i && i < a.len() {
        assert(a[i - 1].last() < a[i].start);
    }
    if i > 0 {
        assert(a[i - 1].wf());
    }
}

/// `a` without the ascending points `b`: each run of `a` is split around the points
/// it holds. Returns the number of runs and of values.
pub fn diff_array(a: &[Run], b: &[u16], out: &mut [Run]) -> (r: (usize, u32))
    requires
        runs_ok(a@),
        asc16(b@),
        a.len() + b.len() <= old(out).len(),
    ensures
        final(out).len() == old(out).len(),
        covers(final(out)@, r.0 as int, r.1 as int, runs_set(a@).difference(b@.to_set())),
        r.0 <= a.len() + b.len(),
        apart(a@) ==> apart(final(out)@.take(r.0 as int)),
        untouched(old(out)@, final(out)@, r.0 as int),
{
    let ghost t = runs_set(a@).difference(b@.to_set());
    let (mut ai, mut bi, mut nr, mut card): (usize, usize, usize, u32) = (0, 0, 0, 0);
    // `cut`: the points that may have split a run come before it.
    let ghost mut cut: int = 0;
    proof {
        lemma_rdone_start(out@, t);
        lemma_diff_gap(a@, 0, t);
        lemma_rdone_skip(out@, 0, 0, t, 0, rhead(a@, 0));
    }
    while ai < a.len()
        invariant
            runs_ok(a@),
            asc16(b@),
            ai <= a.len(),
            bi <= b.len(),
            t == runs_set(a@).difference(b@.to_set()),
            a.len() + b.len() <= out.len() == old(out).len(),
            untouched(old(out)@, out@, nr as int),
            0 <= cut <= b.len(),
            nr <= ai + cut,
            cut > 0 ==> b[cut - 1] < rhead(a@, ai as int),
            forall|j: int| 0 <= j < bi ==> #[trigger] b[j] < rhead(a@, ai as int),
            rdone(out@, nr as int, card as int, t, rhead(a@, ai as int)),
            apart(a@) ==> spaced(out@, nr as int, ahead(a@, ai as int)),
        decreases a.len() - ai,
    {
        proof {
            if apart(a@) {
                lemma_ahead(a@, ai as int);
            }
        }
        let ar: Run = a[ai];
        let mut lo: u32 = ar.start as u32;
        let hi: u32 = ar.end() as u32;
        while bi < b.len() && (b[bi] as u32) < lo
            invariant
                bi <= b.len(),
                lo == rhead(a@, ai as int),
                forall|j: int| 0 <= j < bi ==> #[trigger] b[j] < lo,
            decreases b.len() - bi,
        {
            bi = bi + 1;
        }
        let mut bj: usize = bi;
        while bj < b.len() && lo <= hi && b[bj] as u32 <= hi
            invariant
                runs_ok(a@),
                asc16(b@),
                ai < a.len(),
                bj <= b.len(),
                t == runs_set(a@).difference(b@.to_set()),
                a.len() + b.len() <= out.len() == old(out).len(),
            untouched(old(out)@, out@, nr as int),
                ar == a[ai as int],
                hi == ar.last(),
                ar.start <= lo <= 65536,
                0 <= cut <= b.len(),
                nr <= ai + cut,
                cut > 0 ==> b[cut - 1] <= hi && (b[cut - 1] < lo || cut <= bj),
                forall|j: int| 0 <= j < bj ==> #[trigger] b[j] < lo,
                bj < b.len() ==> b[bj as int] >= lo,
                lo <= hi + 1,
                rdone(out@, nr as int, card as int, t, lo as int),
                apart(a@) ==> spaced(out@, nr as int, lo as int),
            decreases b.len() - bj,
        {
            let v: u32 = b[bj] as u32;
            let ghost before = out@;
            let ghost mut bound: int = lo as int;
            if v > lo {
                let r: Run = run(lo, v - 1);
                proof {
                    assert forall|x: u16| lo <= x <= r.last() implies (#[trigger] t.contains(x) <==> lo <= x) by {
                        assert(a@[ai as int].has(x));
                        if b@.contains(x) {
                            let j = choose|j: int| 0 <= j < b.len() && b@[j] == x;
                            if j >= bj {
                                assert(b[bj as int] <= b[j]);
                            } else {
                                assert(b[j] < lo);
                            }
                        }
                    }
                    lemma_rdone_emit(out@, nr as int, card as int, t, bound, r);
                    if apart(a@) {
                        lemma_spaced(before, nr as int, lo as int, r, v + 1);
                    }
                    if cut > bj {
                        assert(b[bj as int] <= b[cut - 1]);
                    }
                    bound = v as int;
                    cut = bj + 1;
                }
                out[nr] = r;
                assert(out@ =~= before.update(nr as int, r));
                card = card + (v - lo);
                nr = nr + 1;
            }
            proof {
                assert(b@.contains(b@[bj as int]));
                lemma_rdone_skip(out@, nr as int, card as int, t, bound, v + 1);
            }
            lo = v + 1;
            bj = bj + 1;
        }
        if lo <= hi {
            let r: Run = run(lo, hi);
            let ghost before = out@;
            proof {
                assert forall|x: u16| lo <= x <= r.last() implies (#[trigger] t.contains(x) <==> lo <= x) by {
                    assert(a@[ai as int].has(x));
                    if b@.contains(x) {
                        let j = choose|j: int| 0 <= j < b.len() && b@[j] == x;
                        if j < bj {
                            assert(b[j] < lo);
                        } else {
                            assert(b[bj as int] <= b[j]);
                        }
                    }
                }
                lemma_rdone_emit(out@, nr as int, card as int, t, lo as int, r);
                if apart(a@) {
                    lemma_spaced(before, nr as int, lo as int, r, ahead(a@, ai + 1));
                }
            }
            out[nr] = r;
            assert(out@ =~= before.update(nr as int, r));
            card = card + (hi - lo + 1);
            nr = nr + 1;
        }
        proof {
            lemma_diff_gap(a@, ai + 1, t);
            lemma_rdone_skip(out@, nr as int, card as int, t, hi + 1, rhead(a@, ai + 1));
        }
        ai = ai + 1;
    }
    proof {
        lemma_rdone_end(out@, nr as int, card as int, t, 65536);
    }
    (nr, card)
}

} // verus!
