//! The smallest standard encoding of what an op leaves in its arena.
//!
//! An arena holds each block in the form the fold happened to leave it in. For storage each
//! is encoded anew in its smallest form, so that the bytes are a function of the values.
use vstd::prelude::*;

use crate::arena::OpArena;
use crate::bitmap::FrozenBitmap;
use crate::buffer::{buf_room, AlignedBuf};
use crate::builder::FrozenBitmapBuilder;
use crate::canon::finished_standard;
use crate::container::Data;
use crate::cursor::ContainerRef;
use crate::model::{blocks_ok, lemma_asc16_len, Block};

verus! {

/// The recorded blocks of an arena, each in its smallest form, in the memory of `buf`.
pub(crate) fn encode_smallest(arena: &OpArena, buf: AlignedBuf) -> (r: FrozenBitmap)
    requires
        arena.wf(),
    ensures
        r.set() == arena.set(),
        finished_standard(r.src(), arena.set()),
        r.room() >= buf_room(buf),
{
    let n: usize = arena.container_count();
    let mut b: FrozenBitmapBuilder = FrozenBitmapBuilder::new();
    let mut i: usize = 0;
    proof {
        arena.lemma_slots();
        assert(arena.blocks().take(0) =~= Seq::<Block>::empty());
    }
    while i < n
        invariant
            i <= n == arena.blocks().len(),
            arena.wf(),
            blocks_ok(arena.blocks()),
            b.wf(),
            b.blocks() == arena.blocks().take(i as int),
        decreases n - i,
    {
        let c: ContainerRef = arena.container_ref(i);
        let data: Data = c.typed();
        let mut lows: Vec<u16> = Vec::new();
        data.for_each(&mut lows);
        proof {
            data.lemma_listing();
            assert(lows@ =~= data.listing());
            assert(arena.blocks()[i as int].lows.len() > 0);
            lemma_asc16_len(lows@);
            if i > 0 {
                assert(arena.blocks()[i - 1].key < arena.blocks()[i as int].key);
            }
        }
        b.push_container(c.key, lows.as_slice());
        i = i + 1;
        assert(arena.blocks().take(i as int) =~= arena.blocks().take(i - 1).push(
            arena.blocks()[i - 1],
        ));
    }
    assert(arena.blocks().take(n as int) =~= arena.blocks());
    b.finish_standard_in(buf)
}

} // verus!
