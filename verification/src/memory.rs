//! Where the memory of ops comes from: one thread's pools of aligned buffers.
//!
//! A fold borrows its working memory from [`Buffers`] and gives it back. An op-ready result
//! keeps the buffer it was folded in, and a result buffer takes its place; a result for
//! storage is encoded into a result buffer. Nothing but the budget can refuse a request.
use vstd::prelude::*;

use crate::bitmap::FrozenBitmap;
use crate::buffer::{aligned_buf, buf_bytes, buf_capacity, buf_room, AlignedBuf};
use crate::builder::FrozenBitmapBuilder;
use crate::pool::{kept, prewarm as prewarm_pools, total, warmed, OnOverflow, Pool, Pools, Taken};

verus! {

/// One thread's buffers.
pub type Buffers = Pools<AlignedBuf>;

/// Another request for working memory exceeds the budget.
pub open spec fn exceeded(p: Buffers) -> bool {
    p.arenas().idle().len() == 0 && p.arenas().out() + 1 > p.limits().buffers
}

/// No more buffers are idle than the budget allows.
pub open spec fn bounded(p: Buffers) -> bool {
    &&& p.arenas().idle().len() <= p.limits().buffers
    &&& p.results().idle().len() <= p.limits().buffers
}

/// The size of every idle buffer is what it was allocated for.
pub open spec fn sized(p: Pool<AlignedBuf>) -> bool {
    &&& p.sizes().len() == p.idle().len()
    &&& forall|i: int| 0 <= i < p.idle().len() ==> #[trigger] p.sizes()[i] == buf_room(p.idle()[i])
}

/// The sizes of both pools are those of their buffers.
pub open spec fn measured(p: Buffers) -> bool {
    sized(p.arenas()) && sized(p.results())
}

/// What no op changes: the budget, that it bounds what is idle, and that the sizes are those
/// of the buffers.
pub open spec fn in_budget(before: Buffers, after: Buffers) -> bool {
    &&& after.wf()
    &&& after.limits() == before.limits()
    &&& bounded(before) ==> bounded(after)
    &&& measured(before) ==> measured(after)
}

/// Requests over budget are counted.
pub open spec fn counted(before: Buffers, after: Buffers, over: bool) -> bool {
    after.over() == (if over && before.over() < u64::MAX {
        before.over() + 1
    } else {
        before.over() as int
    })
}

/// `buf` was handed out: the buffer that came back last, or a new one if none is idle.
pub open spec fn taken(before: Pool<AlignedBuf>, after: Pool<AlignedBuf>, buf: AlignedBuf) -> bool {
    &&& after.out() == before.out() + 1
    &&& if before.idle().len() > 0 {
        &&& buf == before.idle().last()
        &&& after.idle() == before.idle().drop_last()
        &&& after.sizes() == before.sizes().drop_last()
    } else {
        &&& after.idle() == before.idle()
        &&& after.sizes() == before.sizes()
        &&& buf_bytes(buf) == Seq::<u8>::empty()
        &&& buf_room(buf) == 0
    }
}

/// `buf` came back, and is kept, with the size it was allocated for, while the pool is under
/// budget.
pub open spec fn given(before: Pool<AlignedBuf>, after: Pool<AlignedBuf>, buf: AlignedBuf, limit: usize) -> bool {
    exists|bytes: usize|
        bytes == buf_room(buf) && #[trigger] kept(before, after, buf, bytes, limit)
}

/// Working memory for one fold: an idle buffer, or a fresh one. `None` where the budget is
/// exceeded and asks to refuse.
pub fn borrow_buf(p: &mut Buffers) -> (r: Option<AlignedBuf>)
    requires
        old(p).wf(),
        old(p).arenas().out() < usize::MAX,
    ensures
        in_budget(*old(p), *final(p)),
        counted(*old(p), *final(p), exceeded(*old(p))),
        final(p).results() == old(p).results(),
        r is None <==> exceeded(*old(p)) && old(p).limits().on_overflow == OnOverflow::Fail,
        match r {
            Some(buf) => taken(old(p).arenas(), final(p).arenas(), buf),
            None => refused(old(p).arenas(), final(p).arenas()),
        },
{
    match p.take_arena() {
        None => None,
        Some(Taken::Idle(buf)) => Some(buf),
        Some(Taken::Fresh { .. }) => Some(aligned_buf(0)),
    }
}

/// A request was refused: it counts as handed out, and nothing else changes.
pub open spec fn refused(before: Pool<AlignedBuf>, after: Pool<AlignedBuf>) -> bool {
    &&& after.out() == before.out() + 1
    &&& after.idle() == before.idle()
    &&& after.sizes() == before.sizes()
}

/// Give working memory back.
pub fn give_buf(p: &mut Buffers, buf: AlignedBuf)
    requires
        old(p).wf(),
    ensures
        in_budget(*old(p), *final(p)),
        final(p).over() == old(p).over(),
        final(p).results() == old(p).results(),
        given(old(p).arenas(), final(p).arenas(), buf, old(p).limits().buffers),
{
    let bytes: usize = buf_capacity(&buf);
    p.put_arena(buf, bytes);
    assert(kept(old(p).arenas(), p.arenas(), buf, bytes, old(p).limits().buffers));
}

/// A buffer for a result: an idle one, or a fresh one.
pub fn result_buf(p: &mut Buffers) -> (r: AlignedBuf)
    requires
        old(p).wf(),
        old(p).results().out() < usize::MAX,
    ensures
        in_budget(*old(p), *final(p)),
        final(p).over() == old(p).over(),
        final(p).arenas() == old(p).arenas(),
        taken(old(p).results(), final(p).results(), r),
{
    match p.take_result() {
        Some(buf) => buf,
        None => aligned_buf(0),
    }
}

/// A result buffer went where working memory had become a result.
pub open spec fn swapped(before: Buffers, arenas: Pool<AlignedBuf>, after: Buffers) -> bool {
    exists|spare: AlignedBuf| #[trigger]
        taken(before.results(), after.results(), spare) && given(
            arenas,
            after.arenas(),
            spare,
            before.limits().buffers,
        )
}

/// Working memory becomes a result; a result buffer takes its place.
pub fn swap_out(p: &mut Buffers)
    requires
        old(p).wf(),
        old(p).results().out() < usize::MAX,
    ensures
        in_budget(*old(p), *final(p)),
        final(p).over() == old(p).over(),
        swapped(*old(p), old(p).arenas(), *final(p)),
{
    let spare: AlignedBuf = result_buf(p);
    give_buf(p, spare);
    assert(taken(old(p).results(), p.results(), spare));
}

/// What one fold with an op-ready result does to the pools. Only a budget that is exceeded
/// and asks to refuse refuses it. The result keeps the memory it was folded in, and a result
/// buffer takes its place.
pub open spec fn folded_once(before: Buffers, after: Buffers, r: Option<FrozenBitmap>) -> bool {
    &&& in_budget(before, after)
    &&& counted(before, after, exceeded(before))
    &&& r is None <==> exceeded(before) && before.limits().on_overflow == OnOverflow::Fail
    &&& match r {
        Some(b) => exists|buf: AlignedBuf, arenas: Pool<AlignedBuf>| #[trigger]
            taken(before.arenas(), arenas, buf) && b.room() >= buf_room(buf) && swapped(
                before,
                arenas,
                after,
            ),
        None => refused(before.arenas(), after.arenas()) && after.results() == before.results(),
    }
}

/// A result was encoded into a result buffer.
pub open spec fn stored_in(before: Buffers, after: Buffers, b: FrozenBitmap) -> bool {
    exists|buf: AlignedBuf| #[trigger]
        taken(before.results(), after.results(), buf) && b.room() >= buf_room(buf)
}

/// Memory came back with at least the room it was handed out with.
pub open spec fn returned(
    arenas: Pool<AlignedBuf>,
    after: Pool<AlignedBuf>,
    buf: AlignedBuf,
    limit: usize,
) -> bool {
    exists|back: AlignedBuf|
        buf_room(back) >= buf_room(buf) && #[trigger] given(arenas, after, back, limit)
}

/// What one fold with a result for storage does to the pools. Only a budget that is exceeded
/// and asks to refuse refuses it. The memory it was folded in goes back, and the result is
/// encoded into a result buffer.
pub open spec fn stored_once(before: Buffers, after: Buffers, r: Option<FrozenBitmap>) -> bool {
    &&& in_budget(before, after)
    &&& counted(before, after, exceeded(before))
    &&& r is None <==> exceeded(before) && before.limits().on_overflow == OnOverflow::Fail
    &&& match r {
        Some(b) => {
            &&& stored_in(before, after, b)
            &&& exists|buf: AlignedBuf, arenas: Pool<AlignedBuf>| #[trigger]
                taken(before.arenas(), arenas, buf) && returned(
                    arenas,
                    after.arenas(),
                    buf,
                    before.limits().buffers,
                )
        },
        None => refused(before.arenas(), after.arenas()) && after.results() == before.results(),
    }
}

/// What taking back a result does to the pools: its buffer is kept while there are fewer
/// than the budget.
pub open spec fn recycled(before: Buffers, after: Buffers, bitmap: FrozenBitmap) -> bool {
    &&& in_budget(before, after)
    &&& after.over() == before.over()
    &&& after.arenas() == before.arenas()
    &&& exists|buf: AlignedBuf|
        buf_bytes(buf) == bitmap.src() && buf_room(buf) == bitmap.room() && #[trigger] given(
            before.results(),
            after.results(),
            buf,
            before.limits().buffers,
        )
}

/// Take back the buffer of a bitmap that is no longer needed.
pub fn recycle(p: &mut Buffers, bitmap: FrozenBitmap)
    requires
        old(p).wf(),
    ensures
        recycled(*old(p), *final(p), bitmap),
{
    let buf: AlignedBuf = bitmap.into_buf();
    let bytes: usize = buf_capacity(&buf);
    p.put_result(buf, bytes);
    proof {
        assert(kept(old(p).results(), p.results(), buf, bytes, old(p).limits().buffers));
        assert(given(old(p).results(), p.results(), buf, old(p).limits().buffers));
    }
}

/// The new idle buffers are empty and have the room of their sizes.
pub open spec fn roomy(before: Pool<AlignedBuf>, after: Pool<AlignedBuf>, sizes: Seq<usize>) -> bool {
    forall|i: int|
        before.idle().len() <= i < after.idle().len() ==> buf_room(#[trigger] after.idle()[i])
            == sizes[i - before.idle().len()] && buf_bytes(after.idle()[i]) == Seq::<u8>::empty()
}

/// Allocate the configured buffers now.
pub fn prewarm(p: &mut Buffers)
    requires
        old(p).wf(),
        forall|s: usize| #[trigger] old(p).limits().sizes.contains(s) ==> s <= isize::MAX,
    ensures
        in_budget(*old(p), *final(p)),
        final(p).over() == old(p).over(),
        warmed(
            old(p).arenas(),
            final(p).arenas(),
            old(p).limits().sizes,
            old(p).limits().buffers,
        ),
        warmed(
            old(p).results(),
            final(p).results(),
            old(p).limits().sizes,
            old(p).limits().buffers,
        ),
        roomy(old(p).arenas(), final(p).arenas(), old(p).limits().sizes),
        roomy(old(p).results(), final(p).results(), old(p).limits().sizes),
        final(p).arenas().out() == old(p).arenas().out(),
        final(p).results().out() == old(p).results().out(),
{
    prewarm_pools(p, aligned_buf, aligned_buf);
}

/// What making a bitmap in a result buffer does to the pools.
pub open spec fn made_in(before: Buffers, after: Buffers, b: FrozenBitmap) -> bool {
    &&& in_budget(before, after)
    &&& after.over() == before.over()
    &&& after.arenas() == before.arenas()
    &&& stored_in(before, after, b)
}

/// Finish a builder into a result buffer.
pub fn finish_in(p: &mut Buffers, builder: FrozenBitmapBuilder) -> (r: FrozenBitmap)
    requires
        old(p).wf(),
        old(p).results().out() < usize::MAX,
        builder.wf(),
    ensures
        builder.finished_into(r),
        made_in(*old(p), *final(p), r),
{
    let buf: AlignedBuf = result_buf(p);
    let r: FrozenBitmap = builder.finish_in(buf);
    assert(taken(old(p).results(), p.results(), buf));
    r
}

/// Copy a bitmap into a result buffer.
pub fn clone_in(p: &mut Buffers, bitmap: &FrozenBitmap) -> (r: FrozenBitmap)
    requires
        old(p).wf(),
        old(p).results().out() < usize::MAX,
    ensures
        r.src() == bitmap.src(),
        made_in(*old(p), *final(p), r),
{
    let buf: AlignedBuf = result_buf(p);
    let r: FrozenBitmap = FrozenBitmap::from_bytes_in(bitmap.as_bytes(), buf);
    assert(taken(old(p).results(), p.results(), buf));
    r
}

/// Validate frozen bytes and copy them into a result buffer; `None`, with nothing taken, if
/// they are not a well-formed frozen bitmap.
pub fn parse_in(p: &mut Buffers, bytes: &[u8]) -> (r: Option<FrozenBitmap>)
    requires
        old(p).wf(),
        old(p).results().out() < usize::MAX,
    ensures
        r is Some <==> crate::frozen::frozen_ok(bytes@) && bytes.len() <= isize::MAX,
        match r {
            Some(b) => b.src() == bytes@ && made_in(*old(p), *final(p), b),
            None => *final(p) == *old(p),
        },
{
    if bytes.len() > isize::MAX as usize || !FrozenBitmap::is_valid(bytes) {
        return None;
    }
    let buf: AlignedBuf = result_buf(p);
    let r: FrozenBitmap = FrozenBitmap::from_bytes_in(bytes, buf);
    assert(taken(old(p).results(), p.results(), buf));
    Some(r)
}

/// A fold leaves memory for the next one: once one is done, another does not exceed a budget
/// of any buffers at all.
pub proof fn law_warm(before: Buffers, after: Buffers, b: FrozenBitmap)
    requires
        folded_once(before, after, Some(b)) || stored_once(before, after, Some(b)),
        before.limits().buffers > 0,
    ensures
        !exceeded(after),
{
}

/// A fold whose result is dropped leaves as many buffers out as there were, and as many
/// idle if it found them there.
pub proof fn law_steady(before: Buffers, between: Buffers, after: Buffers, b: FrozenBitmap)
    requires
        folded_once(before, between, Some(b)) || stored_once(before, between, Some(b)),
        recycled(between, after, b),
    ensures
        after.arenas().out() == before.arenas().out(),
        after.results().out() == before.results().out(),
        in_budget(before, after),
        bounded(before) && before.arenas().idle().len() > 0 && before.results().idle().len() > 0
            ==> after.arenas().idle().len() == before.arenas().idle().len()
            && after.results().idle().len() == before.results().idle().len(),
{
}

/// Storage results take, fill and return the same buffers: once their results are dropped,
/// every idle buffer is where it was, with no less room.
pub proof fn law_same_buffers(before: Buffers, between: Buffers, after: Buffers, b: FrozenBitmap)
    requires
        stored_once(before, between, Some(b)),
        recycled(between, after, b),
        bounded(before),
        before.arenas().idle().len() > 0,
        before.results().idle().len() > 0,
    ensures
        forall|i: int|
            0 <= i < before.arenas().idle().len() ==> buf_room(#[trigger] after.arenas().idle()[i])
                >= buf_room(before.arenas().idle()[i]),
        forall|i: int|
            0 <= i < before.results().idle().len() ==> buf_room(
                #[trigger] after.results().idle()[i],
            ) >= buf_room(before.results().idle()[i]),
        after.arenas().idle().len() == before.arenas().idle().len(),
        after.results().idle().len() == before.results().idle().len(),
{
}

/// Memory that idle buffers were allocated for.
pub open spec fn rooms(bufs: Seq<AlignedBuf>) -> int
    decreases bufs.len(),
{
    if bufs.len() == 0 {
        0
    } else {
        rooms(bufs.drop_last()) + buf_room(bufs.last())
    }
}

proof fn lemma_rooms(p: Pool<AlignedBuf>, k: int)
    requires
        sized(p),
        0 <= k <= p.idle().len(),
    ensures
        total(p.sizes().take(k)) == rooms(p.idle().take(k)),
    decreases k,
{
    if k > 0 {
        lemma_rooms(p, k - 1);
        assert(p.sizes().take(k).drop_last() =~= p.sizes().take(k - 1));
        assert(p.idle().take(k).drop_last() =~= p.idle().take(k - 1));
    } else {
        assert(p.sizes().take(0) =~= Seq::<usize>::empty());
        assert(p.idle().take(0) =~= Seq::<AlignedBuf>::empty());
    }
}

/// The bytes retained are those that the idle buffers were allocated for, all of them and
/// nothing else. It holds of new pools, and every op keeps it.
pub proof fn law_retained_bytes(p: Buffers)
    requires
        measured(p),
    ensures
        total(p.arenas().sizes()) == rooms(p.arenas().idle()),
        total(p.results().sizes()) == rooms(p.results().idle()),
{
    let (a, r) = (p.arenas(), p.results());
    lemma_rooms(a, a.idle().len() as int);
    lemma_rooms(r, r.idle().len() as int);
    assert(a.sizes().take(a.sizes().len() as int) =~= a.sizes());
    assert(r.sizes().take(r.sizes().len() as int) =~= r.sizes());
    assert(a.idle().take(a.idle().len() as int) =~= a.idle());
    assert(r.idle().take(r.idle().len() as int) =~= r.idle());
}

proof fn lemma_rooms_over(a: Seq<AlignedBuf>, b: Seq<AlignedBuf>)
    requires
        a.len() == b.len(),
        forall|i: int| 0 <= i < a.len() ==> buf_room(#[trigger] b[i]) >= buf_room(a[i]),
    ensures
        rooms(b) >= rooms(a),
    decreases a.len(),
{
    if a.len() > 0 {
        let n = a.len() - 1;
        assert forall|i: int| 0 <= i < n implies buf_room(#[trigger] b.drop_last()[i]) >= buf_room(
            a.drop_last()[i],
        ) by {
            assert(b.drop_last()[i] == b[i]);
        }
        lemma_rooms_over(a.drop_last(), b.drop_last());
        assert(buf_room(b[n]) >= buf_room(a[n]));
    }
}

/// Storage results cost no retained memory: once the result of one is dropped, no fewer bytes
/// are idle in either pool than were before it.
pub proof fn law_retained_kept(before: Buffers, between: Buffers, after: Buffers, b: FrozenBitmap)
    requires
        stored_once(before, between, Some(b)),
        recycled(between, after, b),
        bounded(before),
        measured(before),
        before.arenas().idle().len() > 0,
        before.results().idle().len() > 0,
    ensures
        total(after.arenas().sizes()) >= total(before.arenas().sizes()),
        total(after.results().sizes()) >= total(before.results().sizes()),
{
    law_same_buffers(before, between, after, b);
    law_retained_bytes(before);
    law_retained_bytes(after);
    lemma_rooms_over(before.arenas().idle(), after.arenas().idle());
    lemma_rooms_over(before.results().idle(), after.results().idle());
}

} // verus!
