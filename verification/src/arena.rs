//! Working arena for a set op: sized once from a [`Plan`], never grows.
//!
//! There is no slot-grow path: the analysis sized every slot to a proven ceiling, so
//! kernels only ever write into slots that are there. A double-buffered plan lays a
//! mirror region after the slots: partner-major folds flip each slot between its two
//! sides. Serialization compacts the payloads leftward inside the same buffer, which
//! becomes the result.
use vstd::prelude::*;

use crate::bitmap::FrozenBitmap;
use crate::buffer::{
    aligned_buf, buf_bytes, buf_reserve, buf_resize, buf_room, buf_slice, buf_slice_mut,
    buf_truncate, AlignedBuf,
};
use crate::builder::{lemma_entry_frame, lemma_push_block};
use crate::container::{
    array_at, bitmap_at, decode_array, decode_runs, lemma_payload_frame, lemma_payload_len,
    lemma_payload_same, lemma_runs_set_len, payload_ok, payload_set, payload_size, runs_at, runs_ok,
    runs_set, store_array, store_bitmap, store_runs, words_at, Bitmap, Data,
};
use crate::cursor::ContainerRef;
use crate::format::{
    align_up, align_up_spec, card_word, data_off_spec, data_section_off, entry_at, flag_word,
    header_of, header_ok, inline_magic, lemma_align_up, lemma_align_up_least, run_bytes,
    same_entries_but, same_outside, u16_at, u32_at, write_index_entry, Header, IndexEntry,
    ARRAY_MAX_SIZE, BITMAP_BYTES, BUF_ALIGN, CT_ARRAY, CT_BITMAP, CT_RUN, FULL_CARDINALITY, HEADER_SIZE,
    MAX_RUNS, WORD_ALIGN,
};
use crate::frozen::{
    aligned_at, behind, compact, form_align, lemma_aligned, frozen_ok, frozen_set, lemma_std_from, slim, snug, std_base, std_blocks,
    std_end, std_entry, std_lows, std_n, std_payload_ok, std_size, std_start, tidy,
};
use crate::model::{
    asc16, blocks_ok, blocks_set, blocks_sum, lemma_asc16_bound, lemma_asc16_len,
    lemma_blocks_last, lemma_blocks_len, lemma_one_block, lemma_set16, lemma_set32, one_block,
    Block,
};
use crate::plan::{lemma_slots_count, slots_ok, Plan, SlotPlan};
use crate::words::{bits_seq, bits_set, lemma_bits_set, popcount, push_values};
use vstd::slice::slice_subrange;

verus! {

/// One recorded container.
#[derive(Debug, Clone, Copy, PartialEq, Eq, Structural)]
struct OutEntry {
    key: u16,
    typ: u8,
    card: u32,
    /// Payload offset in the arena buffer, on the side it was recorded from.
    off: u32,
    data_size: u32,
    /// The slot it was recorded from.
    slot: u32,
}

/// The slot holds nothing yet.
pub const UNSEEDED: u8 = 255;

/// A bitmap whose count is left to the end.
pub const CARD_LAZY: u32 = 0xFFFF_FFFF;

/// Accumulator of a slot in a partner-major fold: the container form it holds, the
/// side of the double buffer it lives on, and its run count and cardinality.
#[derive(Debug, Clone, Copy, PartialEq, Eq, Structural)]
pub struct SlotState {
    pub typ: u8,
    pub side: u8,
    pub runs: u16,
    pub card: u32,
}

impl SlotState {
    /// Whether the slot holds an accumulator.
    pub fn seeded(&self) -> (r: bool)
        ensures
            r == (self.typ != UNSEEDED),
    {
        self.typ != UNSEEDED
    }
}

/// Working arena of one op.
pub struct OpArena {
    buf: AlignedBuf,
    slot_off: Vec<u32>,
    slot_sz: Vec<u32>,
    slot_key: Vec<u16>,
    state: Vec<SlotState>,
    out: Vec<OutEntry>,
    /// Distance from a slot's first side to its mirror; 0 without a mirror.
    stride: usize,
    /// Where the scratch behind the slots starts.
    scratch_off: usize,
    next_slot: usize,
    total_card: u64,
}

/// A stored accumulator of form `typ` at `off`: like a payload, but possibly empty.
spec fn acc_ok(b: Seq<u8>, off: int, st: SlotState, size: int) -> bool {
    &&& 0 <= off
    &&& off + size <= b.len()
    &&& if st.typ == CT_ARRAY {
        &&& 2 * st.card <= size
        &&& asc16(array_at(b, off, st.card as int))
    } else if st.typ == CT_RUN {
        &&& 2 + 4 * st.runs <= size
        &&& st.runs <= MAX_RUNS
        &&& u16_at(b, off) == st.runs
        &&& runs_ok(runs_at(b, off))
        &&& st.card == runs_set(runs_at(b, off)).len()
    } else {
        &&& st.typ == CT_BITMAP
        &&& size == BITMAP_BYTES
        &&& st.card == CARD_LAZY || st.card == bits_set(words_at(b, off)).len()
    }
}

/// The values of a stored accumulator.
spec fn acc_lows(b: Seq<u8>, off: int, st: SlotState) -> Set<u16> {
    if st.typ == CT_ARRAY {
        array_at(b, off, st.card as int).to_set()
    } else if st.typ == CT_RUN {
        runs_set(runs_at(b, off))
    } else {
        bits_set(words_at(b, off))
    }
}

/// An accumulator reads the same from equal bytes.
proof fn lemma_acc_frame(b: Seq<u8>, c: Seq<u8>, off: int, st: SlotState, size: int)
    requires
        acc_ok(b, off, st, size),
        b.len() == c.len(),
        forall|k: int| off <= k < off + size ==> b[k] == c[k],
    ensures
        acc_ok(c, off, st, size),
        acc_lows(c, off, st) == acc_lows(b, off, st),
{
    if st.typ == CT_ARRAY {
        assert(array_at(b, off, st.card as int) =~= array_at(c, off, st.card as int));
    } else if st.typ == CT_RUN {
        assert(u16_at(b, off) == u16_at(c, off));
        assert(runs_at(b, off) =~= runs_at(c, off));
    } else {
        assert(words_at(b, off) =~= words_at(c, off));
    }
}

impl OpArena {
    // --- layout ----------------------------------------------------------------

    /// Number of slots.
    pub closed spec fn n(self) -> int {
        self.slot_key@.len() as int
    }

    /// Key of slot `i`.
    pub closed spec fn key(self, i: int) -> u16 {
        self.slot_key@[i]
    }

    /// Capacity of slot `i`.
    pub closed spec fn cap(self, i: int) -> int {
        self.slot_sz@[i] as int
    }

    /// There is a mirror region.
    pub closed spec fn double(self) -> bool {
        self.stride > 0
    }

    spec fn bytes(self) -> Seq<u8> {
        buf_bytes(self.buf)
    }

    /// Offset of slot `i` on `side`.
    spec fn at(self, i: int, side: int) -> int {
        self.slot_off@[i] + if side == 0 {
            0
        } else {
            self.stride as int
        }
    }

    /// The slots lie behind each other, past the room for header and index, on both
    /// sides.
    spec fn layout_ok(self) -> bool {
        let n = self.n();
        &&& n <= 65536
        &&& self.slot_off@.len() == n
        &&& self.slot_sz@.len() == n
        &&& self.state@.len() == n
        &&& forall|i: int, j: int| 0 <= i < j < n ==> #[trigger] self.key(i) < #[trigger] self.key(j)
        &&& forall|i: int, j: int|
            0 <= i < j < n ==> #[trigger] self.at(i, 0) + self.cap(i) <= #[trigger] self.at(j, 0)
        &&& forall|i: int| 0 <= i < n ==> #[trigger] self.slot_ok(i)
        &&& self.bytes().len() <= 0x7FFF_0000
        &&& data_off_spec(n, true) <= self.bytes().len()
        &&& self.next_slot <= n
    }

    spec fn slot_ok(self, i: int) -> bool {
        &&& self.cap(i) <= BITMAP_BYTES
        &&& self.at(i, 0) % 8 == 0
        &&& self.cap(i) == BITMAP_BYTES ==> self.at(i, 0) % 64 == 0
        &&& data_off_spec(self.n(), true) <= self.at(i, 0)
        &&& self.stride > 0 ==> self.at(i, 0) + self.cap(i) <= self.stride
        &&& self.at(i, 1) + self.cap(i) <= self.bytes().len()
    }

    // --- contents --------------------------------------------------------------

    /// Entry `j` names a valid payload inside its slot.
    spec fn entry_ok(self, j: int) -> bool {
        let e = self.out@[j];
        &&& e.slot < self.n()
        &&& e.key == self.key(e.slot as int)
        &&& e.typ <= CT_RUN
        &&& e.off == self.at(e.slot as int, 0) || e.off == self.at(e.slot as int, 1)
        &&& e.data_size <= self.cap(e.slot as int)
        &&& payload_ok(self.bytes(), e.off as int, e.typ, e.card as int)
        &&& payload_size(self.bytes(), e.off as int, e.typ, e.card as int) == e.data_size
    }

    spec fn entry_lows(self, j: int) -> Set<u16> {
        let e = self.out@[j];
        payload_set(self.bytes(), e.off as int, e.typ, e.card as int)
    }

    /// Entries ascend by slot.
    spec fn entries_ok(self) -> bool {
        &&& forall|i: int, j: int|
            0 <= i < j < self.out@.len() ==> (#[trigger] self.out@[i]).slot < (
            #[trigger] self.out@[j]).slot
        &&& forall|j: int| 0 <= j < self.out@.len() ==> #[trigger] self.entry_ok(j)
    }

    /// Slot of the last entry, or -1.
    pub closed spec fn last_slot(self) -> int {
        if self.out@.len() == 0 {
            -1
        } else {
            self.out@.last().slot as int
        }
    }

    /// Slot `i` holds nothing, or a valid accumulator.
    spec fn state_ok(self, i: int) -> bool {
        let st = self.state@[i];
        st.typ == UNSEEDED || {
            &&& st.side <= 1
            &&& st.side == 1 ==> self.stride > 0
            &&& acc_ok(self.bytes(), self.at(i, st.side as int), st, self.cap(i))
        }
    }

    /// Every part is well-formed.
    pub closed spec fn wf(self) -> bool {
        &&& self.layout_ok()
        &&& self.entries_ok()
        &&& forall|i: int| self.last_slot() < i < self.n() ==> #[trigger] self.state_ok(i)
        &&& self.total_card == blocks_sum(self.blocks())
        &&& blocks_ok(self.blocks())
    }

    /// The recorded containers.
    pub closed spec fn blocks(self) -> Seq<Block> {
        Seq::new(
            self.out@.len(),
            |j: int| Block { key: self.out@[j].key, lows: self.entry_lows(j) },
        )
    }

    /// Form of recorded container `j`.
    pub closed spec fn typ_at(self, j: int) -> u8 {
        self.out@[j].typ
    }

    /// Forms of the recorded containers.
    pub open spec fn forms(self) -> Seq<u8> {
        Seq::new(self.blocks().len(), |j: int| self.typ_at(j))
    }

    /// Stored bytes of recorded container `j`.
    pub closed spec fn size(self, j: int) -> int {
        self.out@[j].data_size as int
    }

    /// The values of the recorded containers.
    pub open spec fn set(self) -> Set<u32> {
        blocks_set(self.blocks())
    }

    /// Slot `i` holds an accumulator.
    pub closed spec fn seeded(self, i: int) -> bool {
        self.state@[i].typ != UNSEEDED
    }

    /// The values of slot `i`'s accumulator.
    pub closed spec fn acc(self, i: int) -> Set<u16> {
        let st = self.state@[i];
        acc_lows(self.bytes(), self.at(i, st.side as int), st)
    }

    /// The same slots.
    pub closed spec fn same_slots(self, other: OpArena) -> bool {
        &&& self.slot_off@ == other.slot_off@
        &&& self.slot_sz@ == other.slot_sz@
        &&& self.slot_key@ == other.slot_key@
        &&& self.stride == other.stride
        &&& self.scratch() == other.scratch()
        &&& buf_room(self.buf) == buf_room(other.buf)
    }

    /// Bytes of scratch behind the slots.
    pub closed spec fn scratch(self) -> int {
        self.bytes().len() - self.scratch_off
    }

    pub proof fn lemma_self(self)
        ensures
            self.same_slots(self),
    {
    }

    pub proof fn lemma_chain(self, mid: OpArena, other: OpArena)
        requires
            self.same_slots(mid),
            mid.same_slots(other),
        ensures
            self.same_slots(other),
    {
    }

    pub proof fn lemma_same_slots(self, other: OpArena)
        requires
            self.same_slots(other),
        ensures
            self.n() == other.n(),
            self.double() == other.double(),
            forall|i: int| self.key(i) == other.key(i),
            forall|i: int| self.cap(i) == other.cap(i),
            self.slots() == other.slots(),
            self.scratch() == other.scratch(),
            buf_room(self.memory()) == buf_room(other.memory()),
    {
        assert(self.slots() =~= other.slots());
    }

    /// The slots as they were planned.
    pub open spec fn slots(self) -> Seq<SlotPlan> {
        Seq::new(
            self.n() as nat,
            |i: int| SlotPlan { key: self.key(i), capacity: self.cap(i) as u32 },
        )
    }

    /// The slots ascend by key, and none exceeds a bitmap.
    pub proof fn lemma_slots(self)
        requires
            self.wf(),
        ensures
            slots_ok(self.slots()),
            0 <= self.n() <= 65536,
            forall|i: int, j: int| 0 <= i < j < self.n() ==> #[trigger] self.key(i) < #[trigger] self.key(j),
            forall|i: int| 0 <= i < self.n() ==> 0 <= #[trigger] self.cap(i) <= BITMAP_BYTES,
            forall|i: int| 0 <= i < self.n() ==> #[trigger] self.slots()[i].capacity == self.cap(i),
            blocks_ok(self.blocks()),
    {
        assert forall|i: int| 0 <= i < self.n() implies 0 <= #[trigger] self.cap(i) <= BITMAP_BYTES by {
            assert(self.slot_ok(i));
        }
        assert forall|i: int, j: int| 0 <= i < j < self.slots().len() implies (#[trigger] self.slots()[i]).key
            < (#[trigger] self.slots()[j]).key by {
            assert(self.key(i) < self.key(j));
        }
        assert forall|i: int| 0 <= i < self.slots().len() implies (#[trigger] self.slots()[i]).capacity
            <= BITMAP_BYTES by {
            assert(self.cap(i) <= BITMAP_BYTES);
        }
    }
}

impl OpArena {
    /// First slot not yet claimed.
    pub closed spec fn next(self) -> int {
        self.next_slot as int
    }

    /// State of slot `i`.
    pub closed spec fn st(self, i: int) -> SlotState {
        self.state@[i]
    }

    /// Two slots never overlap, on whichever sides.
    proof fn lemma_disjoint(self, i: int, side: int, j: int, t: int)
        requires
            self.layout_ok(),
            0 <= i < self.n(),
            0 <= j < self.n(),
            i != j,
            0 <= side <= 1,
            0 <= t <= 1,
            self.stride == 0 ==> side == 0 && t == 0,
        ensures
            self.at(i, side) + self.cap(i) <= self.at(j, t) || self.at(j, t) + self.cap(j) <= self.at(
                i,
                side,
            ),
    {
        assert(self.slot_ok(i) && self.slot_ok(j));
        if i < j {
            assert(self.at(i, 0) + self.cap(i) <= self.at(j, 0));
        } else {
            assert(self.at(j, 0) + self.cap(j) <= self.at(i, 0));
        }
    }

    /// Bytes changed inside slot `i` leave everything else alone.
    proof fn lemma_frame(self, other: OpArena, i: int, side: int)
        requires
            self.layout_ok(),
            self.entries_ok(),
            self.last_slot() < i < self.n(),
            0 <= side <= 1,
            self.stride == 0 ==> side == 0,
            other.same_slots(self),
            other.out@ == self.out@,
            other.state@.len() == self.state@.len(),
            other.next_slot == self.next_slot,
            forall|j: int| 0 <= j < self.n() && j != i ==> other.state@[j] == self.state@[j],
            same_outside(
                other.bytes(),
                self.bytes(),
                self.at(i, side),
                self.at(i, side) + self.cap(i),
            ),
        ensures
            other.layout_ok(),
            other.entries_ok(),
            other.blocks() == self.blocks(),
            other.last_slot() == self.last_slot(),
            forall|j: int|
                self.last_slot() < j < self.n() && j != i && #[trigger] self.state_ok(j) ==> other.state_ok(j)
                    && (self.seeded(j) ==> other.acc(j) == self.acc(j)),
    {
        assert forall|j: int| 0 <= j < self.n() implies #[trigger] other.slot_ok(j) by {
            assert(self.slot_ok(j));
            assert(other.at(j, 0) == self.at(j, 0) && other.cap(j) == self.cap(j));
        }
        assert forall|a: int, b: int| 0 <= a < b < other.n() implies #[trigger] other.at(a, 0)
            + other.cap(a) <= #[trigger] other.at(b, 0) by {
            assert(self.at(a, 0) + self.cap(a) <= self.at(b, 0));
        }
        assert forall|a: int, b: int| 0 <= a < b < other.n() implies #[trigger] other.key(a)
            < #[trigger] other.key(b) by {
            assert(self.key(a) < self.key(b));
        }
        assert forall|j: int| 0 <= j < self.out@.len() implies #[trigger] other.entry_ok(j)
            && other.entry_lows(j) == self.entry_lows(j) by {
            assert(self.entry_ok(j));
            let e = self.out@[j];
            if j < self.out@.len() - 1 {
                assert(self.out@[j].slot < self.out@[self.out@.len() - 1].slot);
            }
            let t = if e.off == self.at(e.slot as int, 0) { 0int } else { 1 };
            self.lemma_disjoint(i, side, e.slot as int, t);
            lemma_payload_frame(
                self.bytes(),
                other.bytes(),
                e.off as int,
                e.typ,
                e.card as int,
            );
        }
        assert forall|j: int| 0 <= j < self.out@.len() implies other.blocks()[j] == self.blocks()[j] by {
            assert(other.entry_ok(j));
        }
        assert(other.blocks() =~= self.blocks());
        assert forall|j: int|
            self.last_slot() < j < self.n() && j != i && #[trigger] self.state_ok(j) implies other.state_ok(
            j,
        ) && (self.seeded(j) ==> other.acc(j) == self.acc(j)) by {
            let st = self.state@[j];
            if st.typ != UNSEEDED {
                self.lemma_disjoint(i, side, j, st.side as int);
                lemma_acc_frame(
                    self.bytes(),
                    other.bytes(),
                    self.at(j, st.side as int),
                    st,
                    self.cap(j),
                );
            }
        }
    }

    /// The arena is sized by the plan and holds nothing yet.
    pub open spec fn made(self, plan: Plan) -> bool {
        &&& self.wf()
        &&& self.n() == plan.slots@.len()
        &&& self.double() == plan.double
        &&& self.scratch() == plan.scratch_bytes
        &&& forall|i: int|
            0 <= i < self.n() ==> #[trigger] self.key(i) == plan.slots@[i].key && self.cap(i)
                == plan.slots@[i].capacity
        &&& self.slots() == plan.slots@
        &&& self.blocks() == Seq::<Block>::empty()
        &&& self.next() == 0
        &&& self.last_slot() == -1
        &&& forall|i: int| 0 <= i < self.n() ==> !(#[trigger] self.seeded(i))
    }

    /// The memory.
    pub closed spec fn memory(self) -> AlignedBuf {
        self.buf
    }

    /// The memory, for another use.
    pub fn into_buf(self) -> (r: AlignedBuf)
        ensures
            r == self.memory(),
    {
        self.buf
    }

    /// Size a buffer for every planned slot. Bitmap-capacity slots land on 64-byte
    /// boundaries; room for header and index is reserved in front, so that
    /// serialization can compact the payloads leftward in place.
    pub fn from_plan(plan: &Plan) -> (r: Self)
        requires
            plan.wf(),
        ensures
            r.made(*plan),
    {
        OpArena::from_plan_in(plan, aligned_buf(0))
    }

    /// Size `buf`, whatever it held, for every planned slot.
    pub fn from_plan_in(plan: &Plan, buf: AlignedBuf) -> (r: Self)
        requires
            plan.wf(),
        ensures
            r.made(*plan),
            buf_room(r.memory()) >= buf_room(buf),
    {
        let n: usize = plan.slots.len();
        proof {
            lemma_slots_count(plan.slots@);
            lemma_align_up(16 + 8 * n, 64);
        }
        let mut slot_off: Vec<u32> = Vec::with_capacity(n);
        let mut slot_sz: Vec<u32> = Vec::with_capacity(n);
        let mut slot_key: Vec<u16> = Vec::with_capacity(n);
        let mut state: Vec<SlotState> = Vec::with_capacity(n);
        let mut cursor: usize = data_section_off(n, true);
        let ghost front = cursor as int;
        let mut i: usize = 0;
        while i < n
            invariant
                i <= n <= 65536,
                n == plan.slots@.len(),
                plan.wf(),
                front == data_off_spec(n as int, true),
                front <= cursor <= front + 8256 * i,
                front <= 600_000,
                slot_off.len() == i,
                slot_sz.len() == i,
                slot_key.len() == i,
                state.len() == i,
                forall|k: int|
                    0 <= k < i ==> #[trigger] slot_key@[k] == plan.slots@[k].key && slot_sz@[k]
                        == plan.slots@[k].capacity && state@[k].typ == UNSEEDED && state@[k].side == 0,
                forall|k: int|
                    0 <= k < i ==> {
                        &&& front <= #[trigger] slot_off@[k]
                        &&& slot_off@[k] + slot_sz@[k] <= cursor
                        &&& slot_off@[k] % 8 == 0
                        &&& slot_sz@[k] == BITMAP_BYTES ==> slot_off@[k] % 64 == 0
                    },
                forall|a: int, b: int|
                    0 <= a < b < i ==> #[trigger] slot_off@[a] + slot_sz@[a] <= #[trigger] slot_off@[b],
            decreases n - i,
        {
            let s: SlotPlan = plan.slots[i];
            assert(plan.slots@[i as int].capacity <= BITMAP_BYTES);
            let align: usize = if s.capacity as usize == BITMAP_BYTES {
                BUF_ALIGN
            } else {
                WORD_ALIGN
            };
            proof {
                lemma_align_up(cursor as int, 64);
                lemma_align_up(cursor as int, 8);
            }
            cursor = align_up(cursor, align);
            slot_off.push(cursor as u32);
            slot_sz.push(s.capacity);
            slot_key.push(s.key);
            state.push(SlotState { typ: UNSEEDED, side: 0, runs: 0, card: 0 });
            cursor = cursor + s.capacity as usize;
            i = i + 1;
        }
        proof {
            lemma_align_up(cursor as int, 64);
        }
        let stride: usize = if plan.double {
            align_up(cursor, BUF_ALIGN)
        } else {
            0
        };
        proof {
            lemma_align_up(cursor + stride, 64);
        }
        let scratch_off: usize = align_up(cursor + stride, BUF_ALIGN);
        let total: usize = scratch_off + plan.scratch_bytes;
        let mut buf: AlignedBuf = buf;
        buf_truncate(&mut buf, 0);
        buf_reserve(&mut buf, total);
        buf_resize(&mut buf, total, 0);
        let r: OpArena = OpArena {
            buf,
            slot_off,
            slot_sz,
            slot_key,
            state,
            out: Vec::new(),
            stride,
            scratch_off,
            next_slot: 0,
            total_card: 0,
        };
        proof {
            assert forall|k: int| 0 <= k < r.n() implies #[trigger] r.slot_ok(k) by {
                assert(slot_off@[k] + slot_sz@[k] <= cursor);
                assert(slot_key@[k] == plan.slots@[k].key);
                assert(plan.slots@[k].capacity <= BITMAP_BYTES);
            }
            assert forall|a: int, b: int| 0 <= a < b < r.n() implies #[trigger] r.at(a, 0) + r.cap(a)
                <= #[trigger] r.at(b, 0) by {
                assert(slot_off@[a] + slot_sz@[a] <= slot_off@[b]);
            }
            assert forall|a: int, b: int| 0 <= a < b < r.n() implies #[trigger] r.key(a)
                < #[trigger] r.key(b) by {
                assert(slot_key@[a] == plan.slots@[a].key && slot_key@[b] == plan.slots@[b].key);
                assert(plan.slots@[a].key < plan.slots@[b].key);
            }
            assert(r.blocks() =~= Seq::<Block>::empty());
            assert forall|k: int| 0 <= k < r.n() implies #[trigger] r.state_ok(k) by {
                assert(slot_key@[k] == plan.slots@[k].key);
            }
            assert forall|k: int| 0 <= k < r.n() implies #[trigger] r.key(k) == plan.slots@[k].key
                && r.cap(k) == plan.slots@[k].capacity by {
                assert(slot_key@[k] == plan.slots@[k].key);
            }
            assert forall|k: int| 0 <= k < r.n() implies !(#[trigger] r.seeded(k)) by {
                assert(slot_key@[k] == plan.slots@[k].key);
            }
            assert forall|k: int| 0 <= k < r.n() implies r.slots()[k] == plan.slots@[k] by {
                assert(r.key(k) == plan.slots@[k].key);
            }
            assert(r.slots() =~= plan.slots@);
        }
        r
    }

    /// Hand out the slot planned for `key`, passing over planned keys that produced
    /// nothing. Keys are claimed ascending.
    pub fn claim_key(&mut self, key: u16) -> (r: usize)
        requires
            old(self).wf(),
            exists|i: int| old(self).next() <= i < old(self).n() && old(self).key(i) == key,
        ensures
            final(self).wf(),
            old(self).next() <= r < old(self).n(),
            old(self).key(r as int) == key,
            final(self).next() == r + 1,
            final(self).same_slots(*old(self)),
            final(self).blocks() == old(self).blocks(),
            final(self).forms() == old(self).forms(),
            final(self).last_slot() == old(self).last_slot(),
            forall|i: int| final(self).st(i) == old(self).st(i) && final(self).acc(i) == old(self).acc(i),
    {
        let ghost w = choose|i: int| self.next() <= i < self.n() && self.key(i) == key;
        let mut i: usize = self.next_slot;
        while self.slot_key[i] < key
            invariant
                old(self).wf(),
                *self == *old(self),
                self.next() <= i <= w < self.n(),
                self.key(w) == key,
            decreases w - i,
        {
            proof {
                if i == w {
                    assert(false);
                }
            }
            i = i + 1;
        }
        proof {
            if i < w {
                assert(self.key(i as int) < self.key(w));
            }
        }
        self.next_slot = i + 1;
        proof {
            self.lemma_moved(*old(self));
        }
        i
    }

    /// Well-formedness does not depend on which slots are claimed.
    proof fn lemma_moved(self, other: OpArena)
        requires
            other.wf(),
            self.buf == other.buf,
            self.same_slots(other),
            self.state@ == other.state@,
            self.out@ == other.out@,
            self.total_card == other.total_card,
            self.next_slot <= self.n(),
        ensures
            self.wf(),
            self.blocks() == other.blocks(),
            self.forms() == other.forms(),
            forall|i: int| self.st(i) == other.st(i) && self.acc(i) == other.acc(i),
    {
        assert forall|j: int| 0 <= j < self.n() implies #[trigger] self.slot_ok(j) by {
            assert(other.slot_ok(j));
        }
        assert forall|a: int, b: int| 0 <= a < b < self.n() implies #[trigger] self.at(a, 0)
            + self.cap(a) <= #[trigger] self.at(b, 0) by {
            assert(other.at(a, 0) + other.cap(a) <= other.at(b, 0));
        }
        assert forall|a: int, b: int| 0 <= a < b < self.n() implies #[trigger] self.key(a)
            < #[trigger] self.key(b) by {
            assert(other.key(a) < other.key(b));
        }
        assert forall|j: int| 0 <= j < self.out@.len() implies #[trigger] self.entry_ok(j) by {
            assert(other.entry_ok(j));
        }
        assert(self.blocks() =~= other.blocks());
        assert forall|i: int| self.last_slot() < i < self.n() implies #[trigger] self.state_ok(i) by {
            assert(other.state_ok(i));
        }
    }

    /// Number of slots.
    pub fn num_slots(&self) -> (r: usize)
        ensures
            r == self.n(),
    {
        self.slot_key.len()
    }

    /// Capacity of slot `i`.
    pub fn slot_capacity(&self, i: usize) -> (r: usize)
        requires
            self.wf(),
            i < self.n(),
        ensures
            r == self.cap(i as int),
            r <= BITMAP_BYTES,
    {
        assert(self.slot_ok(i as int));
        self.slot_sz[i] as usize
    }

    /// The planned key of slot `i`.
    pub fn planned_key(&self, i: usize) -> (r: u16)
        requires
            self.wf(),
            i < self.n(),
        ensures
            r == self.key(i as int),
    {
        self.slot_key[i]
    }

    /// State of slot `i`.
    pub fn state(&self, i: usize) -> (r: SlotState)
        requires
            self.wf(),
            i < self.n(),
        ensures
            r == self.st(i as int),
            (r.typ != UNSEEDED) == self.seeded(i as int),
            self.last_slot() < i && self.seeded(i as int) ==> r.typ <= CT_RUN && (r.card == self.acc(
                i as int,
            ).len() || r.typ == CT_BITMAP && r.card == CARD_LAZY),
    {
        let st: SlotState = self.state[i];
        proof {
            if self.last_slot() < i && self.seeded(i as int) {
                assert(self.state_ok(i as int));
                if st.typ == CT_ARRAY {
                    lemma_asc16_len(
                        array_at(self.bytes(), self.at(i as int, st.side as int), st.card as int),
                    );
                }
            }
        }
        st
    }

    /// Whether this arena carries the mirror region.
    pub fn is_double(&self) -> (r: bool)
        ensures
            r == self.double(),
    {
        self.stride > 0
    }

    /// Byte offset of slot `i` on `side`.
    fn offset(&self, i: usize, side: u8) -> (r: usize)
        requires
            self.layout_ok(),
            i < self.n(),
            side <= 1,
        ensures
            r == self.at(i as int, side as int),
            r + self.cap(i as int) <= self.bytes().len(),
    {
        assert(self.slot_ok(i as int));
        if side == 0 {
            self.slot_off[i] as usize
        } else {
            self.slot_off[i] as usize + self.stride
        }
    }
}

impl OpArena {
    /// Side that slot `i` is on.
    spec fn side(self, i: int) -> int {
        if self.state@[i].typ == UNSEEDED {
            0
        } else {
            self.state@[i].side as int
        }
    }

    fn cur_side(&self, i: usize) -> (r: u8)
        requires
            self.wf(),
            self.last_slot() < i < self.n(),
        ensures
            r == self.side(i as int),
            r <= 1,
            r == 1 ==> self.stride > 0,
    {
        assert(self.state_ok(i as int));
        if self.state[i].typ == UNSEEDED {
            0
        } else {
            self.state[i].side
        }
    }

    /// Form of slot `i`'s accumulator.
    pub closed spec fn form(self, i: int) -> u8 {
        self.state@[i].typ
    }

    /// Everything of `self` but slot `i`'s accumulator is as in `other`.
    pub open spec fn same_but(self, other: OpArena, i: int) -> bool {
        &&& self.same_slots(other)
        &&& self.blocks() == other.blocks()
        &&& self.forms() == other.forms()
        &&& self.next() == other.next()
        &&& self.last_slot() == other.last_slot()
        &&& forall|j: int|
            #![trigger self.seeded(j)]
            #![trigger self.acc(j)]
            #![trigger self.form(j)]
            self.last_slot() < j < self.n() && j != i ==> {
                &&& self.seeded(j) == other.seeded(j)
                &&& self.form(j) == other.form(j)
                &&& self.st(j) == other.st(j)
                &&& self.seeded(j) ==> self.acc(j) == other.acc(j)
            }
    }

    pub proof fn lemma_st(self)
        ensures
            forall|i: int| #[trigger] self.seeded(i) == (self.st(i).typ != UNSEEDED),
            forall|i: int| #[trigger] self.form(i) == self.st(i).typ,
    {
    }

    pub proof fn lemma_but_chain(self, mid: OpArena, other: OpArena, i: int)
        requires
            self.same_but(mid, i),
            mid.same_but(other, i),
        ensures
            self.same_but(other, i),
    {
        self.lemma_same_slots(mid);
        assert forall|j: int| self.last_slot() < j < self.n() && j != i implies {
            &&& #[trigger] self.seeded(j) == other.seeded(j)
            &&& self.form(j) == other.form(j)
            &&& self.st(j) == other.st(j)
            &&& self.seeded(j) ==> self.acc(j) == other.acc(j)
        } by {
            assert(mid.seeded(j) == other.seeded(j));
        }
    }

    /// Decode slot `i`'s accumulator.
    pub fn load(&self, i: usize) -> (r: Data)
        requires
            self.wf(),
            self.last_slot() < i < self.n(),
            self.seeded(i as int),
        ensures
            r.wf(),
            r.set() == self.acc(i as int),
            r.spec_typ() == self.form(i as int),
            r.spec_bytes() <= self.cap(i as int),
            !(r is Inline),
            r matches Data::Run(v) ==> v@.len() <= MAX_RUNS && v@.len() == self.st(i as int).runs,
    {
        assert(self.state_ok(i as int));
        let st: SlotState = self.state[i];
        let off: usize = self.offset(i, st.side);
        let bytes: &[u8] = buf_slice(&self.buf);
        assert(bytes@.len() == bytes.len());
        if st.typ == CT_ARRAY {
            Data::Array(decode_array(bytes, off, st.card as usize))
        } else if st.typ == CT_RUN {
            Data::Run(decode_runs(bytes, off))
        } else {
            Data::Bitmap(bitmap_at(bytes, off))
        }
    }

    /// Store an accumulator in slot `i`, on the other side if `flip`. The count of a
    /// bitmap may be left open.
    #[verifier::rlimit(40)]
    pub fn save(&mut self, i: usize, data: &Data, card: u32, flip: bool)
        requires
            old(self).wf(),
            old(self).last_slot() < i < old(self).n(),
            data.wf(),
            !(data is Inline),
            data matches Data::Run(v) ==> v@.len() <= MAX_RUNS,
            data.spec_bytes() <= old(self).cap(i as int),
            card == data.set().len() || data is Bitmap && card == CARD_LAZY,
            flip ==> old(self).double(),
        ensures
            final(self).wf(),
            final(self).same_but(*old(self), i as int),
            final(self).seeded(i as int),
            final(self).acc(i as int) == data.set(),
            final(self).form(i as int) == data.spec_typ(),
            final(self).st(i as int).card == card,
            data matches Data::Run(v) ==> final(self).st(i as int).runs == v@.len(),
    {
        let cur: u8 = self.cur_side(i);
        let side: u8 = if flip {
            1 - cur
        } else {
            cur
        };
        let off: usize = self.offset(i, side);
        proof {
            data.lemma_listing();
            assert(self.slot_ok(i as int));
        }
        let ghost before = *self;
        let mut runs: u16 = 0;
        match data {
            Data::Array(a) => {
                store_array(buf_slice_mut(&mut self.buf), off, a.as_slice());
            },
            Data::Run(r) => {
                store_runs(buf_slice_mut(&mut self.buf), off, r.as_slice());
                runs = r.len() as u16;
            },
            Data::Bitmap(b) => {
                store_bitmap(buf_slice_mut(&mut self.buf), off, b);
            },
            Data::Inline(_) => {},
        }
        let typ: u8 = data.typ();
        self.state[i] = SlotState { typ, side, runs, card };
        proof {
            before.lemma_frame(*self, i as int, side as int);
            assert(acc_ok(self.bytes(), off as int, self.state@[i as int], self.cap(i as int)));
            assert(acc_lows(self.bytes(), off as int, self.state@[i as int]) == data.set());
            assert forall|j: int| self.last_slot() < j < self.n() implies #[trigger] self.state_ok(j) by {
                if j != i {
                    assert(before.state_ok(j));
                }
            }
            assert forall|j: int|
                #![trigger self.seeded(j)]
                #![trigger self.acc(j)]
                #![trigger self.form(j)]
                self.last_slot() < j < self.n() && j != i implies self.seeded(j) == before.seeded(j)
                && self.form(j) == before.form(j) && self.st(j) == before.st(j) && (self.seeded(j)
                ==> self.acc(j) == before.acc(j)) by {
                assert(before.state_ok(j));
            }
            assert(self.forms() =~= before.forms());
        }
    }

    /// Slot `i`, on its side, holds a payload of this type, cardinality and size.
    pub closed spec fn ready(self, i: int, typ: u8, card: int, size: int) -> bool {
        let off = self.at(i, self.side(i));
        &&& typ <= CT_RUN
        &&& size <= self.cap(i)
        &&& payload_ok(self.bytes(), off, typ, card)
        &&& payload_size(self.bytes(), off, typ, card) == size
    }

    /// The values of that payload.
    pub closed spec fn ready_lows(self, i: int, typ: u8, card: int) -> Set<u16> {
        payload_set(self.bytes(), self.at(i, self.side(i)), typ, card)
    }

    /// Record the container in slot `i`, on its side. Empty containers are passed over.
    #[verifier::rlimit(40)]
    pub fn record(&mut self, key: u16, typ: u8, card: u32, i: usize, data_size: usize)
        requires
            old(self).wf(),
            old(self).last_slot() < i < old(self).n(),
            key == old(self).key(i as int),
            card > 0 ==> old(self).ready(i as int, typ, card as int, data_size as int),
        ensures
            final(self).wf(),
            final(self).same_slots(*old(self)),
            final(self).next() == old(self).next(),
            card == 0 ==> *final(self) == *old(self),
            card > 0 ==> {
                &&& final(self).blocks() == old(self).blocks().push(
                    Block { key, lows: old(self).ready_lows(i as int, typ, card as int) },
                )
                &&& final(self).forms() == old(self).forms().push(typ)
                &&& final(self).last_slot() == i
            },
            forall|j: int|
                #![trigger final(self).seeded(j)]
                #![trigger final(self).acc(j)]
                #![trigger final(self).form(j)]
                final(self).seeded(j) == old(self).seeded(j) && final(self).acc(j) == old(self).acc(j)
                    && final(self).form(j) == old(self).form(j) && final(self).st(j) == old(self).st(j),
    {
        if card == 0 {
            return;
        }
        let side: u8 = self.cur_side(i);
        let off: usize = self.offset(i, side);
        let ghost before = *self;
        let ghost b = Block { key, lows: self.ready_lows(i as int, typ, card as int) };
        proof {
            lemma_payload_len(self.bytes(), off as int, typ, card as int);
            if before.out@.len() > 0 {
                let l = before.out@.len() - 1;
                assert(before.entry_ok(l));
                assert(before.key(before.out@[l].slot as int) < before.key(i as int));
            }
            lemma_push_block(before.blocks(), b);
            lemma_blocks_len(before.blocks().push(b));
            lemma_set32(blocks_set(before.blocks().push(b)));
            assert(self.slot_ok(i as int));
        }
        self.total_card = self.total_card + card as u64;
        self.out.push(
            OutEntry {
                key,
                typ,
                card,
                off: off as u32,
                data_size: data_size as u32,
                slot: i as u32,
            },
        );
        proof {
            let n0 = before.out@.len() as int;
            assert forall|j: int| 0 <= j < self.n() implies #[trigger] self.slot_ok(j) by {
                assert(before.slot_ok(j));
            }
            assert forall|a: int, c: int| 0 <= a < c < self.n() implies #[trigger] self.at(a, 0)
                + self.cap(a) <= #[trigger] self.at(c, 0) by {
                assert(before.at(a, 0) + before.cap(a) <= before.at(c, 0));
            }
            assert forall|a: int, c: int| 0 <= a < c < self.n() implies #[trigger] self.key(a)
                < #[trigger] self.key(c) by {
                assert(before.key(a) < before.key(c));
            }
            assert forall|j: int| 0 <= j < self.out@.len() implies #[trigger] self.entry_ok(j) by {
                if j < n0 {
                    assert(before.entry_ok(j));
                }
            }
            assert forall|a: int, c: int| 0 <= a < c < self.out@.len() implies (
            #[trigger] self.out@[a]).slot < (#[trigger] self.out@[c]).slot by {
                if c == n0 {
                    if a < n0 - 1 {
                        assert(before.out@[a].slot < before.out@[n0 - 1].slot);
                    }
                } else {
                    assert(before.out@[a].slot < before.out@[c].slot);
                }
            }
            assert(self.blocks() =~= before.blocks().push(b));
            assert forall|j: int| self.last_slot() < j < self.n() implies #[trigger] self.state_ok(j) by {
                assert(before.state_ok(j));
            }
        }
    }

    /// Store a finished container in slot `i` and record it, unless it is empty.
    #[verifier::rlimit(40)]
    pub fn put(&mut self, i: usize, data: &Data)
        requires
            old(self).wf(),
            old(self).last_slot() < i < old(self).n(),
            data.wf(),
            !(data is Inline),
            data matches Data::Run(v) ==> v@.len() <= MAX_RUNS,
            data.spec_bytes() <= old(self).cap(i as int),
        ensures
            final(self).wf(),
            final(self).same_slots(*old(self)),
            final(self).next() == old(self).next(),
            data.set().len() == 0 ==> final(self).blocks() == old(self).blocks()
                && final(self).forms() == old(self).forms() && final(self).last_slot() == old(
                self,
            ).last_slot(),
            data.set().len() > 0 ==> {
                &&& final(self).blocks() == old(self).blocks().push(
                    Block { key: old(self).key(i as int), lows: data.set() },
                )
                &&& final(self).forms() == old(self).forms().push(data.spec_typ())
                &&& final(self).last_slot() == i
            },
            forall|j: int|
                #![trigger final(self).seeded(j)]
                #![trigger final(self).acc(j)]
                #![trigger final(self).form(j)]
                i < j < final(self).n() ==> {
                    &&& final(self).seeded(j) == old(self).seeded(j)
                    &&& final(self).form(j) == old(self).form(j)
                    &&& final(self).st(j) == old(self).st(j)
                    &&& final(self).seeded(j) ==> final(self).acc(j) == old(self).acc(j)
                },
    {
        let card: u32 = data.count();
        if card == 0 {
            return;
        }
        let key: u16 = self.slot_key[i];
        let size: usize = data.byte_len();
        let ghost before = *self;
        self.save(i, data, card, false);
        proof {
            let st = self.state@[i as int];
            let off = self.at(i as int, st.side as int);
            assert(self.state_ok(i as int));
            data.lemma_listing();
            if st.typ == CT_RUN {
                lemma_runs_set_len(runs_at(self.bytes(), off));
            }
            self.lemma_same_slots(before);
        }
        let ghost mid = *self;
        self.record(key, data.typ(), card, i, size);
        proof {
            assert forall|j: int|
                #![trigger self.seeded(j)]
                #![trigger self.acc(j)]
                #![trigger self.form(j)]
                i < j < self.n() implies {
                &&& self.seeded(j) == before.seeded(j)
                &&& self.form(j) == before.form(j)
                &&& self.st(j) == before.st(j)
                &&& self.seeded(j) ==> self.acc(j) == before.acc(j)
            } by {
                assert(self.seeded(j) == mid.seeded(j) && self.acc(j) == mid.acc(j));
                assert(self.form(j) == mid.form(j) && self.st(j) == mid.st(j));
                assert(mid.seeded(j) == before.seeded(j) && mid.form(j) == before.form(j));
                assert(mid.st(j) == before.st(j));
            }
        }
    }
}

// --- reading back --------------------------------------------------------------

impl OpArena {
    /// Whether nothing was recorded.
    pub fn is_empty(&self) -> (r: bool)
        requires
            self.wf(),
        ensures
            r == (self.set() == Set::<u32>::empty()),
    {
        proof {
            lemma_blocks_len(self.blocks());
            if self.out@.len() == 0 {
                assert(self.set() =~= Set::<u32>::empty());
            } else {
                let b = self.blocks();
                lemma_blocks_last(b);
                lemma_one_block(b.last());
                if self.set() == Set::<u32>::empty() {
                    assert(one_block(b.last()) =~= Set::<u32>::empty());
                    assert(b[b.len() - 1].lows.len() > 0);
                }
            }
        }
        self.out.len() == 0
    }

    /// Number of recorded containers.
    pub fn container_count(&self) -> (r: usize)
        ensures
            r == self.blocks().len(),
    {
        self.out.len()
    }

    /// Key of recorded container `j`.
    pub fn container_key(&self, j: usize) -> (r: u16)
        requires
            j < self.blocks().len(),
        ensures
            r == self.blocks()[j as int].key,
    {
        self.out[j].key
    }

    /// Recorded container `j`. Records ascend by key, so an arena reads back as an
    /// ordered source.
    pub fn container_ref(&self, j: usize) -> (r: ContainerRef<'_>)
        requires
            self.wf(),
            j < self.blocks().len(),
        ensures
            r.wf(),
            r.key == self.blocks()[j as int].key,
            r.lows() == self.blocks()[j as int].lows,
            r.typ == self.typ_at(j as int),
            r.typ <= CT_RUN,
            r.data@.len() == self.size(j as int),
    {
        let e: OutEntry = self.out[j];
        assert(self.entry_ok(j as int));
        let bytes: &[u8] = buf_slice(&self.buf);
        assert(bytes@.len() == bytes.len());
        let off: usize = e.off as usize;
        let data: &[u8] = slice_subrange(bytes, off, off + e.data_size as usize);
        proof {
            lemma_payload_same(bytes@, off as int, data@, 0, e.typ, e.card as int);
        }
        ContainerRef { key: e.key, typ: e.typ, card: e.card, data }
    }

    /// What an arena records fits the slots: keys are slot keys, sizes at most their
    /// capacities.
    pub proof fn lemma_recorded(self, j: int)
        requires
            self.wf(),
            0 <= j < self.blocks().len(),
        ensures
            exists|i: int|
                0 <= i < self.n() && self.key(i) == self.blocks()[j].key && self.size(j) <= self.cap(i),
            blocks_ok(self.blocks()),
    {
        assert(self.entry_ok(j));
        let i = self.out@[j].slot as int;
        assert(self.key(i) == self.blocks()[j].key && self.size(j) <= self.cap(i));
    }

    /// A recorded container is stored as it is.
    pub proof fn lemma_stored(self, j: int)
        requires
            self.wf(),
            0 <= j < self.blocks().len(),
        ensures
            forall|r: ContainerRef| #[trigger]
                r.wf() && r.typ == self.typ_at(j) && r.data@.len() == self.size(j) ==> r.stored()
                    == self.size(j),
    {
        assert(self.entry_ok(j));
        assert(self.slot_ok(self.out@[j].slot as int));
    }

    /// Record slot `i`'s accumulator as it is, its count resolved; nothing if the slot
    /// holds none, or an empty one.
    #[verifier::rlimit(40)]
    pub fn record_acc(&mut self, i: usize)
        requires
            old(self).wf(),
            old(self).last_slot() < i < old(self).n(),
        ensures
            final(self).wf(),
            final(self).same_slots(*old(self)),
            final(self).next() == old(self).next(),
            !old(self).seeded(i as int) || old(self).acc(i as int).len() == 0 ==> *final(self) == *old(
                self,
            ),
            old(self).seeded(i as int) && old(self).acc(i as int).len() > 0 ==> {
                &&& final(self).blocks() == old(self).blocks().push(
                    Block { key: old(self).key(i as int), lows: old(self).acc(i as int) },
                )
                &&& final(self).forms() == old(self).forms().push(old(self).form(i as int))
                &&& final(self).last_slot() == i
            },
            forall|j: int|
                #![trigger final(self).seeded(j)]
                #![trigger final(self).acc(j)]
                #![trigger final(self).form(j)]
                final(self).seeded(j) == old(self).seeded(j) && final(self).acc(j) == old(self).acc(j)
                    && final(self).form(j) == old(self).form(j) && final(self).st(j) == old(self).st(j),
    {
        let st: SlotState = self.state(i);
        if !st.seeded() {
            return;
        }
        assert(self.state_ok(i as int));
        let key: u16 = self.slot_key[i];
        let ghost off = self.at(i as int, st.side as int);
        if st.typ == CT_ARRAY {
            proof {
                lemma_asc16_len(array_at(self.bytes(), off, st.card as int));
                lemma_asc16_bound(array_at(self.bytes(), off, st.card as int));
            }
            self.record(key, CT_ARRAY, st.card, i, st.card as usize * 2);
        } else if st.typ == CT_RUN {
            proof {
                lemma_runs_set_len(runs_at(self.bytes(), off));
                lemma_set16(runs_set(runs_at(self.bytes(), off)));
            }
            self.record(key, CT_RUN, st.card, i, run_bytes(st.runs as usize));
        } else {
            let mut card: u32 = st.card;
            if card == CARD_LAZY {
                let at: usize = self.offset(i, st.side);
                let words: Box<Bitmap> = bitmap_at(buf_slice(&self.buf), at);
                card = popcount(&*words);
            }
            proof {
                lemma_bits_set(words_at(self.bytes(), off));
                lemma_set16(bits_set(words_at(self.bytes(), off)));
            }
            self.record(key, CT_BITMAP, card, i, BITMAP_BYTES);
        }
    }
}

// --- serialization -------------------------------------------------------------

proof fn lemma_mod_64(x: int)
    requires
        x % 64 == 0,
    ensures
        x % 8 == 0,
        x % 2 == 0,
{
}

/// Zero `bytes[from..to]`.
fn fill_zero(bytes: &mut [u8], from: usize, to: usize)
    requires
        from <= to <= old(bytes).len(),
    ensures
        same_outside(final(bytes)@, old(bytes)@, from as int, to as int),
        forall|k: int| from <= k < to ==> final(bytes)[k] == 0,
{
    let mut i: usize = from;
    while i < to
        invariant
            from <= i <= to <= bytes.len(),
            same_outside(bytes@, old(bytes)@, from as int, to as int),
            forall|k: int| from <= k < i ==> bytes[k] == 0,
        decreases to - i,
    {
        bytes[i] = 0;
        i = i + 1;
    }
}

/// Move `len` bytes from `src` down to `dst`; the two ranges may overlap.
fn move_left(bytes: &mut [u8], src: usize, dst: usize, len: usize)
    requires
        dst <= src,
        src + len <= old(bytes).len(),
    ensures
        same_outside(final(bytes)@, old(bytes)@, dst as int, dst + len),
        forall|k: int| 0 <= k < len ==> #[trigger] final(bytes)[dst + k] == old(bytes)[src + k],
{
    let mut i: usize = 0;
    while i < len
        invariant
            i <= len,
            dst <= src,
            src + len <= bytes.len() == old(bytes).len(),
            same_outside(bytes@, old(bytes)@, dst as int, dst + i),
            forall|k: int| 0 <= k < i ==> #[trigger] bytes[dst + k] == old(bytes)[src + k],
        decreases len - i,
    {
        let v: u8 = bytes[src + i];
        assert(v == old(bytes)[src + i]);
        bytes[dst + i] = v;
        i = i + 1;
    }
}

/// Entry `e`'s payload lies at `off` and holds `lows`.
spec fn holds(b: Seq<u8>, e: OutEntry, off: int, lows: Set<u16>) -> bool {
    &&& payload_ok(b, off, e.typ, e.card as int)
    &&& payload_set(b, off, e.typ, e.card as int) == lows
    &&& payload_size(b, off, e.typ, e.card as int) == e.data_size
}

proof fn lemma_holds_frame(b: Seq<u8>, c: Seq<u8>, e: OutEntry, off: int, lows: Set<u16>)
    requires
        holds(b, e, off, lows),
        off + e.data_size <= c.len(),
        forall|k: int| off <= k < off + e.data_size ==> b[k] == c[k],
    ensures
        holds(c, e, off, lows),
{
    assert forall|k: int| 0 <= k < payload_size(b, off, e.typ, e.card as int) implies #[trigger] b[off
        + k] == #[trigger] c[off + k] by {}
    lemma_payload_same(b, off, c, off, e.typ, e.card as int);
}

/// Index entry `k` of `n` points at `o`, where entry `e`'s payload lies.
spec fn landed(
    b: Seq<u8>,
    n: int,
    base: int,
    k: int,
    e: OutEntry,
    o: int,
    lows: Set<u16>,
) -> bool {
    &&& 0 <= o <= 0x3FFF_FFFF
    &&& o % 2 == 0
    &&& e.typ == CT_BITMAP ==> o % 64 == 0
    &&& entry_at(b, n, k) == (IndexEntry {
        key: e.key,
        typ: e.typ,
        cardinality: e.card,
        data_offset: o as u32,
    })
    &&& holds(b, e, base + o, lows)
}

/// Only the index and `[from, to)` differ.
spec fn changed(b: Seq<u8>, c: Seq<u8>, n: int, from: int, to: int) -> bool {
    &&& b.len() == c.len()
    &&& forall|k: int|
        0 <= k < b.len() && !(16 <= k < 16 + 8 * n) && !(from <= k < to) ==> b[k] == c[k]
}

/// Write index entry `j` and move entry `e`'s payload to the next aligned position at
/// or past `dc` in the data section, zeroing the gap before it. Returns that position.
fn place(bytes: &mut [u8], n: usize, j: usize, data_base: usize, dc: usize, e: OutEntry) -> (o: usize)
    requires
        j < n,
        16 + 8 * n <= data_base <= 600_000,
        dc <= 0x3FFF_0000,
        e.typ <= CT_RUN,
        1 <= e.card <= 65536,
        data_base + align_up_spec(
            dc as int,
            if e.typ == CT_BITMAP {
                64
            } else {
                2
            },
        ) <= e.off,
        e.off + e.data_size <= old(bytes).len(),
    ensures
        o == align_up_spec(
            dc as int,
            if e.typ == CT_BITMAP {
                64
            } else {
                2
            },
        ),
        dc <= o < dc + 64,
        e.typ == CT_BITMAP ==> o % 64 == 0,
        forall|k: int| data_base + dc <= k < data_base + o ==> final(bytes)[k] == 0,
        entry_at(final(bytes)@, n as int, j as int) == (IndexEntry {
            key: e.key,
            typ: e.typ,
            cardinality: e.card,
            data_offset: o as u32,
        }),
        same_entries_but(final(bytes)@, old(bytes)@, n as int, j as int),
        changed(old(bytes)@, final(bytes)@, n as int, data_base + dc, data_base + o + e.data_size),
        forall|k: int|
            0 <= k < e.data_size ==> #[trigger] final(bytes)[data_base + o + k] == old(bytes)[e.off + k],
{
    let (size, src): (usize, usize) = (e.data_size as usize, e.off as usize);
    let align: usize = if e.typ == CT_BITMAP {
        BUF_ALIGN
    } else {
        2
    };
    proof {
        lemma_align_up(dc as int, 64);
        lemma_align_up(dc as int, 2);
    }
    let o: usize = align_up(dc, align);
    let dst: usize = data_base + o;
    let entry: IndexEntry = IndexEntry {
        key: e.key,
        typ: e.typ,
        cardinality: e.card,
        data_offset: o as u32,
    };
    write_index_entry(bytes, n, j, entry);
    let ghost b1 = bytes@;
    fill_zero(bytes, data_base + dc, dst);
    move_left(bytes, src, dst, size);
    proof {
        assert forall|k: int| 0 <= k < n implies #[trigger] entry_at(bytes@, n as int, k) == entry_at(
            b1,
            n as int,
            k,
        ) by {
            lemma_entry_frame(b1, bytes@, n as int, k);
        }
    }
    o
}

/// Form of a recorded container once sparse bitmaps are arrays.
spec fn shrunk(e: OutEntry) -> u8 {
    if e.typ == CT_BITMAP && e.card <= ARRAY_MAX_SIZE {
        CT_ARRAY
    } else {
        e.typ
    }
}

impl OpArena {
    /// Placing entry `j` leaves the entries before it landed and the ones after it
    /// where they are.
    #[verifier::rlimit(40)]
    proof fn lemma_placed(
        self,
        b: Seq<u8>,
        c: Seq<u8>,
        base: int,
        j: int,
        dc: int,
        o: int,
        offs: Seq<int>,
    )
        requires
            self.packable(),
            0 <= j < self.out@.len(),
            16 + 8 * self.out@.len() <= base,
            b.len() == self.bytes().len(),
            0 <= dc <= o <= 0x3FFF_FFFF,
            o % 2 == 0,
            self.out@[j].typ == CT_BITMAP ==> o % 64 == 0,
            base + o <= self.at(self.out@[j].slot as int, 0),
            changed(b, c, self.out@.len() as int, base + dc, base + o + self.out@[j].data_size),
            same_entries_but(c, b, self.out@.len() as int, j),
            entry_at(c, self.out@.len() as int, j) == (IndexEntry {
                key: self.out@[j].key,
                typ: self.out@[j].typ,
                cardinality: self.out@[j].card,
                data_offset: o as u32,
            }),
            forall|k: int|
                0 <= k < self.out@[j].data_size ==> #[trigger] c[base + o + k] == b[self.out@[j].off + k],
            all_landed(self, b, base, j, dc, offs),
            all_waiting(self, b, j),
        ensures
            all_landed(self, c, base, j + 1, o + self.out@[j].data_size, offs.push(o)),
            all_waiting(self, c, j + 1),
            self.room_at(j + 1, base + o + self.out@[j].data_size),
            base + o + self.out@[j].data_size <= b.len(),
            self.out@[j].data_size <= BITMAP_BYTES,
    {
        let n = self.out@.len() as int;
        let bl = self.blocks();
        let e = self.out@[j];
        let slot = e.slot as int;
        assert(self.entry_ok(j));
        assert(self.slot_ok(slot));
        assert(holds(b, e, e.off as int, bl[j].lows));
        assert forall|k: int| 0 <= k < payload_size(b, e.off as int, e.typ, e.card as int) implies
            #[trigger] b[e.off + k] == #[trigger] c[base + o + k] by {}
        lemma_payload_same(b, e.off as int, c, base + o, e.typ, e.card as int);
        assert forall|k: int| 0 <= k < j + 1 implies #[trigger] landed(
            c,
            n,
            base,
            k,
            self.out@[k],
            offs.push(o)[k],
            bl[k].lows,
        ) && offs.push(o)[k] + self.out@[k].data_size <= o + e.data_size by {
            if k < j {
                assert(landed(b, n, base, k, self.out@[k], offs[k], bl[k].lows));
                assert(entry_at(c, n, k) == entry_at(b, n, k));
                lemma_holds_frame(b, c, self.out@[k], base + offs[k], bl[k].lows);
            }
        }
        assert forall|k: int| j + 1 <= k < n implies #[trigger] holds(
            c,
            self.out@[k],
            self.out@[k].off as int,
            bl[k].lows,
        ) by {
            assert(holds(b, self.out@[k], self.out@[k].off as int, bl[k].lows));
            assert(self.entry_ok(k));
            assert(self.out@[j].slot < self.out@[k].slot);
            assert(self.at(slot, 0) + self.cap(slot) <= self.at(self.out@[k].slot as int, 0));
            lemma_holds_frame(b, c, self.out@[k], self.out@[k].off as int, bl[k].lows);
        }
        if j + 1 < n {
            assert(self.entry_ok(j + 1));
            assert(self.out@[j].slot < self.out@[j + 1].slot);
            assert(self.at(slot, 0) + self.cap(slot) <= self.at(self.out@[j + 1].slot as int, 0));
        }
    }

    /// The containers of `b` are the recorded ones, in the form they were recorded in.
    pub open spec fn stored_fast(self, b: Seq<u8>) -> bool {
        &&& std_blocks(b) == self.blocks()
        &&& forall|i: int|
            0 <= i < self.blocks().len() ==> (#[trigger] std_entry(b, i)).typ == self.typ_at(i)
                && std_size(b, i) == self.size(i)
    }

    /// The containers of `b` are the recorded ones, a bitmap of few enough values as an array
    /// and all others in the form they were recorded in.
    pub open spec fn stored_compact(self, b: Seq<u8>) -> bool {
        &&& std_blocks(b) == self.blocks()
        &&& forall|i: int|
            0 <= i < self.blocks().len() ==> if self.typ_at(i) == CT_BITMAP
                && self.blocks()[i].lows.len() <= ARRAY_MAX_SIZE {
                (#[trigger] std_entry(b, i)).typ == CT_ARRAY && std_size(b, i) == 2
                    * self.blocks()[i].lows.len()
            } else {
                std_entry(b, i).typ == self.typ_at(i) && std_size(b, i) == self.size(i)
            }
    }

    /// Serialize the recorded containers as they are, op-ready.
    pub fn serialize(self) -> (r: FrozenBitmap)
        requires
            self.wf(),
        ensures
            r.set() == self.set(),
            !inline_magic(r.src()),
            self.stored_fast(r.src()),
            tidy(r.src()),
            snug(r.src()),
            slim(r.src()),
            r.room() == buf_room(self.memory()),
    {
        let ghost me = self;
        let r: FrozenBitmap = self.pack();
        proof {
            assert forall|i: int| 0 <= i < std_n(r.src()) implies #[trigger] std_size(r.src(), i)
                <= BITMAP_BYTES by {
                assert(std_entry(r.src(), i).typ == me.out@[i].typ);
                assert(me.entry_ok(i));
                assert(me.slot_ok(me.out@[i].slot as int));
            }
        }
        r
    }

    /// Serialize for storage: a bitmap of few enough values is turned into an array first.
    #[verifier::rlimit(40)]
    pub fn serialize_compact(self) -> (r: FrozenBitmap)
        requires
            self.wf(),
        ensures
            r.set() == self.set(),
            !inline_magic(r.src()),
            self.stored_compact(r.src()),
            tidy(r.src()),
            snug(r.src()),
            compact(r.src()),
            r.room() == buf_room(self.memory()),
    {
        let ghost me = self;
        let mut a: OpArena = self;
        a.shrink_bitmaps();
        let ghost small = a;
        let r: FrozenBitmap = a.pack();
        proof {
            let b = r.src();
            assert forall|i: int| 0 <= i < me.out@.len() implies {
                &&& (#[trigger] std_entry(b, i)).typ == shrunk(me.out@[i])
                &&& std_size(b, i) == if shrunk(me.out@[i]) != me.typ_at(i) {
                    2 * me.blocks()[i].lows.len() as int
                } else {
                    me.size(i)
                }
                &&& me.out@[i].card == me.blocks()[i].lows.len()
                &&& std_lows(b, i) == me.blocks()[i].lows
                &&& me.typ_at(i) <= CT_RUN
                &&& me.typ_at(i) == CT_ARRAY ==> me.out@[i].card <= ARRAY_MAX_SIZE
            } by {
                assert(me.entry_ok(i));
                let e = me.out@[i];
                assert(me.slot_ok(e.slot as int));
                lemma_payload_len(me.bytes(), e.off as int, e.typ, e.card as int);
                assert(small.out@[i].typ == shrunk(e));
                assert(small.entry_ok(i));
                assert(std_blocks(b)[i] == me.blocks()[i]);
            }
        }
        r
    }

    /// Turn every recorded bitmap of few enough values into an array, in its slot.
    fn shrink_bitmaps(&mut self)
        requires
            old(self).wf(),
        ensures
            final(self).packable(),
            buf_room(final(self).memory()) == buf_room(old(self).memory()),
            final(self).blocks() == old(self).blocks(),
            final(self).out@.len() == old(self).out@.len(),
            forall|j: int|
                0 <= j < final(self).out@.len() ==> (#[trigger] final(self).out@[j]).typ == shrunk(
                    old(self).out@[j],
                ) && (final(self).out@[j].typ == old(self).out@[j].typ ==> final(self).out@[j]
                    == old(self).out@[j]) && final(self).out@[j].card == old(self).out@[j].card,
    {
        let mut j: usize = 0;
        while j < self.out.len()
            invariant
                j <= self.out@.len(),
                self.packable(),
                buf_room(self.memory()) == buf_room(old(self).memory()),
                self.blocks() == old(self).blocks(),
                self.out@.len() == old(self).out@.len(),
                forall|k: int|
                    0 <= k < j ==> (#[trigger] self.out@[k]).typ == shrunk(old(self).out@[k]) && (
                    self.out@[k].typ == old(self).out@[k].typ ==> self.out@[k] == old(self).out@[k])
                        && self.out@[k].card == old(self).out@[k].card,
                forall|k: int| j <= k < self.out@.len() ==> #[trigger] self.out@[k] == old(self).out@[k],
            decreases self.out@.len() - j,
        {
            let e: OutEntry = self.out[j];
            if e.typ == CT_BITMAP && e.card as usize <= ARRAY_MAX_SIZE {
                self.shrink_bitmap(j);
            }
            j = j + 1;
        }
    }

    /// Recorded containers in place, with the counts that go into a header.
    spec fn packable(self) -> bool {
        &&& self.layout_ok()
        &&& self.entries_ok()
        &&& self.total_card == blocks_sum(self.blocks())
        &&& blocks_ok(self.blocks())
    }

    fn shrink_bitmap(&mut self, j: usize)
        requires
            old(self).packable(),
            j < old(self).out@.len(),
            old(self).out@[j as int].typ == CT_BITMAP,
            old(self).out@[j as int].card <= ARRAY_MAX_SIZE,
        ensures
            final(self).packable(),
            buf_room(final(self).memory()) == buf_room(old(self).memory()),
            final(self).blocks() == old(self).blocks(),
            final(self).out@.len() == old(self).out@.len(),
            final(self).out@[j as int].typ == CT_ARRAY,
            final(self).out@[j as int].card == old(self).out@[j as int].card,
            forall|k: int|
                0 <= k < old(self).out@.len() && k != j ==> final(self).out@[k] == old(self).out@[k],
    {
        let e: OutEntry = self.out[j];
        let ghost before = *self;
        assert(self.entry_ok(j as int));
        let off: usize = e.off as usize;
        let mut vals: Vec<u16> = Vec::new();
        let words: Box<Bitmap> = bitmap_at(buf_slice(&self.buf), off);
        push_values(&*words, &mut vals);
        proof {
            lemma_bits_set((*words)@);
            assert(vals@ =~= bits_seq((*words)@, 65536));
            lemma_asc16_len(vals@);
        }
        store_array(buf_slice_mut(&mut self.buf), off, vals.as_slice());
        self.out[j] = OutEntry {
            key: e.key,
            typ: CT_ARRAY,
            card: e.card,
            off: e.off,
            data_size: e.card * 2,
            slot: e.slot,
        };
        proof {
            let i = e.slot as int;
            let side = if e.off == before.at(i, 0) { 0int } else { 1 };
            lemma_asc16_len(vals@);
            assert(before.slot_ok(i));
            assert forall|s: int| 0 <= s < self.n() implies #[trigger] self.slot_ok(s) by {
                assert(before.slot_ok(s));
            }
            assert forall|a: int, c: int| 0 <= a < c < self.n() implies #[trigger] self.at(a, 0)
                + self.cap(a) <= #[trigger] self.at(c, 0) by {
                assert(before.at(a, 0) + before.cap(a) <= before.at(c, 0));
            }
            assert forall|a: int, c: int| 0 <= a < c < self.n() implies #[trigger] self.key(a)
                < #[trigger] self.key(c) by {
                assert(before.key(a) < before.key(c));
            }
            assert forall|k: int| 0 <= k < self.out@.len() implies #[trigger] self.entry_ok(k)
                && self.entry_lows(k) == before.entry_lows(k) by {
                assert(before.entry_ok(k));
                if k != j {
                    let f = before.out@[k];
                    if k < j {
                        assert(before.out@[k].slot < before.out@[j as int].slot);
                    } else {
                        assert(before.out@[j as int].slot < before.out@[k].slot);
                    }
                    let t = if f.off == before.at(f.slot as int, 0) { 0int } else { 1 };
                    before.lemma_disjoint(i, side, f.slot as int, t);
                    lemma_payload_frame(before.bytes(), self.bytes(), f.off as int, f.typ, f.card as int);
                }
            }
            assert forall|a: int, c: int| 0 <= a < c < self.out@.len() implies (
            #[trigger] self.out@[a]).slot < (#[trigger] self.out@[c]).slot by {
                assert(before.out@[a].slot < before.out@[c].slot);
            }
            assert forall|k: int| 0 <= k < self.out@.len() implies self.blocks()[k] == before.blocks()[k] by {
                assert(self.entry_ok(k));
            }
            assert(self.blocks() =~= before.blocks());
        }
    }

    /// Slot of entry `j` starts at or past `at`.
    spec fn room_at(self, j: int, at: int) -> bool {
        j < self.out@.len() ==> at <= self.at(self.out@[j].slot as int, 0)
    }

    /// Compact the payloads leftward inside the buffer, write index and header in front
    /// of them, and hand the buffer out.
    #[verifier::rlimit(40)]
    fn pack(self) -> (r: FrozenBitmap)
        requires
            self.packable(),
        ensures
            r.set() == self.set(),
            !inline_magic(r.src()),
            std_blocks(r.src()) == self.blocks(),
            forall|i: int|
                0 <= i < self.out@.len() ==> (#[trigger] std_entry(r.src(), i)).typ == self.out@[i].typ
                    && std_size(r.src(), i) == self.out@[i].data_size,
            tidy(r.src()),
            snug(r.src()),
            r.room() == buf_room(self.memory()),
    {
        let ghost me = self;
        let ghost bl = self.blocks();
        let OpArena { buf, out, total_card, .. } = self;
        let mut buf: AlignedBuf = buf;
        let n: usize = out.len();
        let (has_runs, has_bitmap): (bool, bool) = forms(&out);
        proof {
            me.lemma_front(has_bitmap);
        }
        let data_base: usize = data_section_off(n, has_bitmap);
        proof {
            assert forall|k: int| 0 <= k < n implies #[trigger] holds(
                buf_bytes(buf),
                out@[k],
                out@[k].off as int,
                bl[k].lows,
            ) by {
                assert(me.entry_ok(k));
            }
        }
        let (dc, Ghost(offs)) = place_all(&mut buf, &out, data_base, has_bitmap, Ghost(me));
        let total: usize = data_base + dc;
        let h: Header = Header { has_runs, has_bitmap, num_containers: n as u32, cardinality: total_card };
        proof {
            lemma_blocks_len(bl);
            lemma_set32(blocks_set(bl));
        }
        let ghost b0 = buf_bytes(buf);
        seal(&mut buf, &h, data_base, total);
        proof {
            me.lemma_sealed(b0, buf_bytes(buf), data_base as int, dc as int, offs);
            me.lemma_snug(b0, buf_bytes(buf), data_base as int, dc as int, offs);
        }
        FrozenBitmap::from_buf(buf)
    }

    /// A header in front of the placed payloads makes a frozen bitmap.
    #[verifier::rlimit(40)]
    proof fn lemma_sealed(self, b0: Seq<u8>, b: Seq<u8>, base: int, dc: int, offs: Seq<int>)
        requires
            self.packable(),
            all_landed(self, b0, base, self.out@.len() as int, dc, offs),
            self.out@.len() <= 65536,
            0 <= dc,
            header_ok(b),
            header_of(b).num_containers == self.out@.len(),
            header_of(b).cardinality == blocks_sum(self.blocks()),
            header_of(b).has_bitmap <==> exists|k: int|
                0 <= k < self.out@.len() && (#[trigger] self.out@[k]).typ == CT_BITMAP,
            header_of(b).has_runs <==> exists|k: int|
                0 <= k < self.out@.len() && (#[trigger] self.out@[k]).typ == CT_RUN,
            header_of(b).has_bitmap ==> base % 64 == 0,
            base == data_off_spec(self.out@.len() as int, header_of(b).has_bitmap),
            16 + 8 * self.out@.len() <= base,
            b.len() == base + dc <= b0.len(),
            forall|k: int| 16 <= k < 16 + 8 * self.out@.len() ==> b[k] == b0[k],
            forall|k: int| base <= k < base + dc ==> b[k] == b0[k],
        ensures
            frozen_ok(b),
            !inline_magic(b),
            frozen_set(b) == self.set(),
            std_blocks(b) == self.blocks(),
            forall|k: int|
                0 <= k < self.out@.len() ==> (#[trigger] std_entry(b, k)).typ == self.out@[k].typ
                    && std_entry(b, k).data_offset == offs[k] && std_size(b, k)
                    == self.out@[k].data_size,
            tidy(b),
    {
        let n = self.out@.len() as int;
        let bl = self.blocks();
        assert forall|k: int| 0 <= k < n implies #[trigger] std_payload_ok(b, k) && std_entry(b, k).key
            == bl[k].key && std_lows(b, k) == bl[k].lows && aligned_at(b, k) by {
            self.lemma_sealed_entry(b0, b, base, dc, offs, k);
            assert(landed(b0, n, base, k, self.out@[k], offs[k], bl[k].lows));
            lemma_aligned(b, k);
        }
        lemma_std_from(b, bl);
        assert forall|k: int| 0 <= k < n implies (#[trigger] std_entry(b, k)).typ == self.out@[k].typ
            && std_entry(b, k).data_offset == offs[k] && std_size(b, k) == self.out@[k].data_size by {
            self.lemma_sealed_entry(b0, b, base, dc, offs, k);
        }
        let typs = Seq::new(n as nat, |k: int| self.out@[k].typ);
        assert forall|k: int| 0 <= k < n && #[trigger] typs[k] == CT_BITMAP implies offs[k] % 64
            == 0 by {
            assert(landed(b0, n, base, k, self.out@[k], offs[k], bl[k].lows));
        }
        assert forall|f: u8| #[trigger] typs.contains(f) <==> exists|k: int|
            0 <= k < n && (#[trigger] self.out@[k]).typ == f by {
            if exists|k: int| 0 <= k < n && (#[trigger] self.out@[k]).typ == f {
                let k = choose|k: int| 0 <= k < n && (#[trigger] self.out@[k]).typ == f;
                assert(typs[k] == f);
            }
            if typs.contains(f) {
                let k = choose|k: int| 0 <= k < n && typs[k] == f;
                assert(self.out@[k].typ == f);
            }
        }
        lemma_tidy(b, typs, offs);
    }

    /// What is placed is found again behind the header.
    #[verifier::rlimit(40)]
    proof fn lemma_sealed_entry(
        self,
        b0: Seq<u8>,
        b: Seq<u8>,
        base: int,
        dc: int,
        offs: Seq<int>,
        k: int,
    )
        requires
            self.packable(),
            all_landed(self, b0, base, self.out@.len() as int, dc, offs),
            0 <= k < self.out@.len(),
            std_n(b) == self.out@.len(),
            std_base(b) == base,
            16 + 8 * self.out@.len() <= base,
            0 <= dc,
            b.len() == base + dc <= b0.len(),
            forall|k: int| 16 <= k < 16 + 8 * self.out@.len() ==> b[k] == b0[k],
            forall|k: int| base <= k < base + dc ==> b[k] == b0[k],
        ensures
            std_payload_ok(b, k),
            std_entry(b, k).key == self.blocks()[k].key,
            std_lows(b, k) == self.blocks()[k].lows,
            std_entry(b, k).typ == self.out@[k].typ,
            std_entry(b, k).data_offset == offs[k],
            std_size(b, k) == self.out@[k].data_size,
    {
        let n = self.out@.len() as int;
        let lows = self.blocks()[k].lows;
        assert(landed(b0, n, base, k, self.out@[k], offs[k], lows));
        assert(self.entry_ok(k));
        lemma_entry_same(b0, b, n, k);
        lemma_holds_frame(b0, b, self.out@[k], base + offs[k], lows);
    }

    /// Payloads packed behind each other, with zeros between them, make a snug bitmap.
    #[verifier::rlimit(40)]
    proof fn lemma_snug(self, b0: Seq<u8>, b: Seq<u8>, base: int, dc: int, offs: Seq<int>)
        requires
            all_packed(self, b0, base, self.out@.len() as int, dc, offs),
            std_n(b) == self.out@.len(),
            std_base(b) == base,
            u16_at(b, 6) == flag_word(header_of(b)),
            u32_at(b, 12) == card_word(header_of(b)),
            forall|k: int|
                0 <= k < self.out@.len() ==> (#[trigger] std_entry(b, k)).typ == self.out@[k].typ
                    && std_entry(b, k).data_offset == offs[k] && std_size(b, k)
                    == self.out@[k].data_size,
            b.len() == base + dc,
            forall|k: int| 16 + 8 * self.out@.len() <= k < base ==> b[k] == 0,
            forall|k: int| base <= k < base + dc ==> b[k] == b0[k],
        ensures
            snug(b),
    {
        let n = self.out@.len() as int;
        assert forall|i: int| 0 <= i <= n implies #[trigger] std_end(b, i) == end_at(
            self.out@,
            offs,
            i,
        ) by {
            if i > 0 {
                assert(std_entry(b, i - 1).data_offset == offs[i - 1]);
            }
        }
        assert forall|i: int| 0 <= i < n implies #[trigger] behind(b, i) by {
            assert(packed(self.out@, b0, base, offs, i));
            assert(std_entry(b, i).data_offset == offs[i]);
            assert(std_end(b, i) == end_at(self.out@, offs, i));
            assert(offs[i] <= dc);
        }
        assert(std_end(b, n) == end_at(self.out@, offs, n));
    }

    /// There are no more entries than slots, so their index fits in front.
    proof fn lemma_front(self, has_bitmap: bool)
        requires
            self.packable(),
        ensures
            self.out@.len() <= self.n() <= 65536,
            data_off_spec(self.out@.len() as int, has_bitmap) <= data_off_spec(self.n(), true) <= 600_000,
            16 + 8 * self.out@.len() <= data_off_spec(self.out@.len() as int, has_bitmap),
            data_off_spec(self.out@.len() as int, has_bitmap) % 8 == 0,
            has_bitmap ==> data_off_spec(self.out@.len() as int, has_bitmap) % 64 == 0,
            self.room_at(0, data_off_spec(self.out@.len() as int, has_bitmap)),
    {
        let m = self.out@.len() as int;
        if m > 0 {
            self.lemma_slot_index(m - 1);
            assert(self.entry_ok(m - 1));
        }
        lemma_align_up(16 + 8 * m, 64);
        lemma_align_up(16 + 8 * m, 8);
        lemma_align_up(16 + 8 * self.n(), 64);
        let top = data_off_spec(self.n(), true);
        lemma_mod_64(top);
        lemma_mod_64(align_up_spec(16 + 8 * m, 64));
        lemma_align_up_least(16 + 8 * m, 64, top);
        lemma_align_up_least(16 + 8 * m, 8, top);
        if m > 0 {
            assert(self.entry_ok(0));
            assert(self.slot_ok(self.out@[0].slot as int));
        }
    }

    /// The slots of the entries are at or past their position.
    proof fn lemma_slot_index(self, j: int)
        requires
            self.entries_ok(),
            0 <= j < self.out@.len(),
        ensures
            j <= self.out@[j].slot,
        decreases j,
    {
        if j > 0 {
            self.lemma_slot_index(j - 1);
            assert(self.out@[j - 1].slot < self.out@[j].slot);
        }
    }

    /// Aligned for entry `j`, the write position is still at or before its slot: the
    /// compaction only ever moves payloads left.
    proof fn lemma_fits(self, j: int, base: int, dc: int, has_bitmap: bool)
        requires
            self.packable(),
            0 <= j < self.out@.len(),
            0 <= base,
            0 <= dc,
            base % 8 == 0,
            has_bitmap ==> base % 64 == 0,
            self.out@[j].typ == CT_BITMAP ==> has_bitmap,
            self.room_at(j, base + dc),
        ensures
            dc <= align_up_spec(dc, 64) < dc + 64,
            dc <= align_up_spec(dc, 2) < dc + 2,
            self.out@[j].typ == CT_BITMAP ==> base + align_up_spec(dc, 64) <= self.at(
                self.out@[j].slot as int,
                0,
            ),
            self.out@[j].typ != CT_BITMAP ==> base + align_up_spec(dc, 2) <= self.at(
                self.out@[j].slot as int,
                0,
            ),
            self.at(self.out@[j].slot as int, 0) <= self.out@[j].off,
    {
        assert(self.entry_ok(j));
        let slot = self.out@[j].slot as int;
        assert(self.slot_ok(slot));
        lemma_align_fits(dc, base, self.at(slot, 0));
    }
}

/// Flags that tell the forms, and bitmaps placed at multiples of 64.
pub(crate) proof fn lemma_tidy(b: Seq<u8>, typs: Seq<u8>, offs: Seq<int>)
    requires
        typs.len() == std_n(b),
        offs.len() == std_n(b),
        header_of(b).has_runs <==> typs.contains(CT_RUN),
        header_of(b).has_bitmap <==> typs.contains(CT_BITMAP),
        header_of(b).has_bitmap ==> std_base(b) % 64 == 0,
        forall|k: int|
            0 <= k < std_n(b) ==> (#[trigger] std_entry(b, k)).typ == typs[k] && std_entry(
                b,
                k,
            ).data_offset == offs[k],
        forall|k: int| 0 <= k < std_n(b) && #[trigger] typs[k] == CT_BITMAP ==> offs[k] % 64 == 0,
    ensures
        tidy(b),
{
    lemma_present(b, typs, CT_RUN);
    lemma_present(b, typs, CT_BITMAP);
    assert forall|k: int| 0 <= k < std_n(b) && (#[trigger] std_entry(b, k)).typ
        == CT_BITMAP implies std_start(b, k) % 64 == 0 by {
        assert(typs[k] == CT_BITMAP);
        lemma_sum_64(std_base(b), offs[k]);
    }
}

/// Some entry is of form `f` where some form is.
proof fn lemma_present(b: Seq<u8>, typs: Seq<u8>, f: u8)
    requires
        typs.len() == std_n(b),
        forall|k: int| 0 <= k < std_n(b) ==> (#[trigger] std_entry(b, k)).typ == typs[k],
    ensures
        typs.contains(f) <==> exists|i: int|
            0 <= i < std_n(b) && (#[trigger] std_entry(b, i)).typ == f,
{
    if typs.contains(f) {
        let k = choose|k: int| 0 <= k < typs.len() && typs[k] == f;
        assert(std_entry(b, k).typ == f);
    }
    if exists|i: int| 0 <= i < std_n(b) && (#[trigger] std_entry(b, i)).typ == f {
        let i = choose|i: int| 0 <= i < std_n(b) && (#[trigger] std_entry(b, i)).typ == f;
        assert(typs[i] == f);
    }
}

proof fn lemma_sum_64(x: int, y: int)
    requires
        x % 64 == 0,
        y % 64 == 0,
    ensures
        (x + y) % 64 == 0,
{
}

/// Aligning within room that starts and ends on a boundary stays within it.
proof fn lemma_align_fits(dc: int, base: int, end: int)
    requires
        0 <= dc,
        0 <= base,
        base + dc <= end,
        base % 8 == 0,
        end % 8 == 0,
    ensures
        dc <= align_up_spec(dc, 64) < dc + 64,
        dc <= align_up_spec(dc, 2) < dc + 2,
        base + align_up_spec(dc, 2) <= end,
        base % 64 == 0 && end % 64 == 0 ==> base + align_up_spec(dc, 64) <= end,
{
    lemma_align_up(dc, 64);
    lemma_align_up(dc, 2);
    assert((end - base) % 2 == 0);
    lemma_align_up_least(dc, 2, end - base);
    if base % 64 == 0 && end % 64 == 0 {
        assert((end - base) % 64 == 0);
        lemma_align_up_least(dc, 64, end - base);
    }
}

/// An index entry depends on the index bytes alone, whatever follows them.
proof fn lemma_entry_same(b: Seq<u8>, c: Seq<u8>, n: int, j: int)
    requires
        0 <= j < n,
        16 + 8 * n <= b.len(),
        16 + 8 * n <= c.len(),
        forall|k: int| 16 <= k < 16 + 8 * n ==> b[k] == c[k],
    ensures
        entry_at(c, n, j) == entry_at(b, n, j),
{
}

/// The first `j` payloads are in place, within `dc` bytes from `base`.
spec fn all_landed(me: OpArena, b: Seq<u8>, base: int, j: int, dc: int, offs: Seq<int>) -> bool {
    &&& offs.len() == j
    &&& forall|k: int|
        0 <= k < j ==> #[trigger] landed(
            b,
            me.out@.len() as int,
            base,
            k,
            me.out@[k],
            offs[k],
            me.blocks()[k].lows,
        ) && offs[k] + me.out@[k].data_size <= dc
}

/// The payloads from `j` on are where they were recorded.
spec fn all_waiting(me: OpArena, b: Seq<u8>, j: int) -> bool {
    forall|k: int|
        j <= k < me.out@.len() ==> #[trigger] holds(
            b,
            me.out@[k],
            me.out@[k].off as int,
            me.blocks()[k].lows,
        )
}

/// Where the first `k` payloads end.
spec fn end_at(out: Seq<OutEntry>, offs: Seq<int>, k: int) -> int {
    if k <= 0 {
        0
    } else {
        offs[k - 1] + out[k - 1].data_size
    }
}

/// Payload `k` lies on the first boundary behind the one before it, with zeros in between.
spec fn packed(out: Seq<OutEntry>, b: Seq<u8>, base: int, offs: Seq<int>, k: int) -> bool {
    &&& offs[k] == align_up_spec(end_at(out, offs, k), form_align(out[k].typ))
    &&& forall|m: int| base + end_at(out, offs, k) <= m < base + offs[k] ==> b[m] == 0
}

/// The first `j` payloads lie behind each other, up to `dc`.
spec fn all_packed(me: OpArena, b: Seq<u8>, base: int, j: int, dc: int, offs: Seq<int>) -> bool {
    &&& offs.len() == j
    &&& dc == end_at(me.out@, offs, j)
    &&& forall|k: int| 0 <= k < j ==> #[trigger] packed(me.out@, b, base, offs, k) && offs[k] <= dc
}

/// One more payload.
proof fn lemma_packed(me: OpArena, b: Seq<u8>, c: Seq<u8>, base: int, j: int, dc: int, o: int, offs: Seq<int>)
    requires
        0 <= j < me.out@.len(),
        0 <= dc <= o,
        16 + 8 * me.out@.len() <= base,
        base + dc <= b.len(),
        all_packed(me, b, base, j, dc, offs),
        o == align_up_spec(dc, form_align(me.out@[j].typ)),
        changed(b, c, me.out@.len() as int, base + dc, base + o + me.out@[j].data_size),
        forall|k: int| base + dc <= k < base + o ==> c[k] == 0,
    ensures
        all_packed(me, c, base, j + 1, o + me.out@[j].data_size, offs.push(o)),
{
    let t = offs.push(o);
    assert forall|k: int| 0 <= k < j + 1 implies #[trigger] packed(me.out@, c, base, t, k) && t[k] <= o
        + me.out@[j].data_size by {
        assert(end_at(me.out@, t, k) == end_at(me.out@, offs, k));
        if k < j {
            assert(packed(me.out@, b, base, offs, k));
            assert forall|m: int| base + end_at(me.out@, t, k) <= m < base + t[k] implies c[m]
                == 0 by {
                assert(b[m] == 0);
                assert(end_at(me.out@, offs, k) >= 0) by {
                    if k > 0 {
                        assert(packed(me.out@, b, base, offs, k - 1));
                        lemma_packed_pos(me, b, base, j, dc, offs, k - 1);
                    }
                }
            }
        }
    }
}

/// Payloads lie in the data section.
proof fn lemma_packed_pos(me: OpArena, b: Seq<u8>, base: int, j: int, dc: int, offs: Seq<int>, k: int)
    requires
        all_packed(me, b, base, j, dc, offs),
        0 <= k < j,
    ensures
        0 <= offs[k],
    decreases k,
{
    if k > 0 {
        lemma_packed_pos(me, b, base, j, dc, offs, k - 1);
    }
    assert(packed(me.out@, b, base, offs, k));
    lemma_align_up(end_at(me.out@, offs, k), 64);
    lemma_align_up(end_at(me.out@, offs, k), 2);
}

/// Whether there are runs, and whether there are bitmaps.
fn forms(out: &Vec<OutEntry>) -> (r: (bool, bool))
    ensures
        r.0 <==> exists|k: int| 0 <= k < out@.len() && (#[trigger] out@[k]).typ == CT_RUN,
        r.1 <==> exists|k: int| 0 <= k < out@.len() && (#[trigger] out@[k]).typ == CT_BITMAP,
{
    let n: usize = out.len();
    let mut has_bitmap: bool = false;
    let mut has_runs: bool = false;
    let mut i: usize = 0;
    while i < n
        invariant
            i <= n == out@.len(),
            has_bitmap <==> exists|k: int| 0 <= k < i && (#[trigger] out@[k]).typ == CT_BITMAP,
            has_runs <==> exists|k: int| 0 <= k < i && (#[trigger] out@[k]).typ == CT_RUN,
        decreases n - i,
    {
        if out[i].typ == CT_BITMAP {
            has_bitmap = true;
        }
        if out[i].typ == CT_RUN {
            has_runs = true;
        }
        i = i + 1;
    }
    (has_runs, has_bitmap)
}

/// Write the header, zero the bytes between index and payloads, and cut the buffer off behind
/// the last payload.
fn seal(buf: &mut AlignedBuf, h: &Header, data_base: usize, total: usize)
    requires
        h.num_containers <= 65536,
        h.cardinality <= FULL_CARDINALITY,
        16 + 8 * h.num_containers <= data_base <= total <= buf_bytes(*old(buf)).len(),
    ensures
        buf_bytes(*final(buf)).len() == total,
        header_ok(buf_bytes(*final(buf))),
        header_of(buf_bytes(*final(buf))) == *h,
        u16_at(buf_bytes(*final(buf)), 6) == flag_word(*h),
        u32_at(buf_bytes(*final(buf)), 12) == card_word(*h),
        forall|k: int|
            16 <= k < 16 + 8 * h.num_containers ==> buf_bytes(*final(buf))[k] == buf_bytes(*old(buf))[k],
        forall|k: int|
            16 + 8 * h.num_containers <= k < data_base ==> buf_bytes(*final(buf))[k] == 0,
        forall|k: int| data_base <= k < total ==> buf_bytes(*final(buf))[k] == buf_bytes(*old(buf))[k],
        buf_room(*final(buf)) == buf_room(*old(buf)),
{
    h.write(buf_slice_mut(buf));
    let ghost b1 = buf_bytes(*buf);
    fill_zero(buf_slice_mut(buf), HEADER_SIZE + 8 * h.num_containers as usize, data_base);
    buf_truncate(buf, total);
    proof {
        let b = buf_bytes(*buf);
        assert(forall|k: int| 0 <= k < 16 ==> b[k] == b1[k]);
        assert(u16_at(b, 6) == u16_at(b1, 6));
        assert(u32_at(b, 12) == u32_at(b1, 12));
        assert(u32_at(b, 8) == u32_at(b1, 8));
    }
}

/// Move the payloads left, behind each other, from `data_base` on, and write their index
/// entries.
#[verifier::rlimit(40)]
fn place_all(
    buf: &mut AlignedBuf,
    out: &Vec<OutEntry>,
    data_base: usize,
    has_bitmap: bool,
    Ghost(me): Ghost<OpArena>,
) -> (r: (usize, Ghost<Seq<int>>))
    requires
        me.packable(),
        out@ == me.out@,
        buf_bytes(*old(buf)).len() == me.bytes().len() <= 0x7FFF_0000,
        out@.len() <= 65536,
        16 + 8 * out@.len() <= data_base <= 600_000,
        data_base % 8 == 0,
        has_bitmap ==> data_base % 64 == 0,
        has_bitmap <==> exists|k: int| 0 <= k < out@.len() && (#[trigger] out@[k]).typ == CT_BITMAP,
        data_base <= buf_bytes(*old(buf)).len(),
        me.room_at(0, data_base as int),
        forall|k: int|
            0 <= k < out@.len() ==> #[trigger] holds(
                buf_bytes(*old(buf)),
                out@[k],
                out@[k].off as int,
                me.blocks()[k].lows,
            ),
    ensures
        buf_bytes(*final(buf)).len() == buf_bytes(*old(buf)).len(),
        buf_room(*final(buf)) == buf_room(*old(buf)),
        data_base + r.0 <= buf_bytes(*final(buf)).len(),
        all_landed(me, buf_bytes(*final(buf)), data_base as int, out@.len() as int, r.0 as int, r.1@),
        all_packed(me, buf_bytes(*final(buf)), data_base as int, out@.len() as int, r.0 as int, r.1@),
{
    let n: usize = out.len();
    let mut dc: usize = 0;
    let mut j: usize = 0;
    let ghost mut offs: Seq<int> = Seq::empty();
    while j < n
        invariant
            j <= n == out@.len(),
            n <= 65536,
            me.packable(),
            out@ == me.out@,
            buf_bytes(*buf).len() == buf_bytes(*old(buf)).len(),
            buf_room(*buf) == buf_room(*old(buf)),
            buf_bytes(*buf).len() == me.bytes().len() <= 0x7FFF_0000,
            16 + 8 * n <= data_base <= 600_000,
            data_base % 8 == 0,
            has_bitmap ==> data_base % 64 == 0,
            has_bitmap <==> exists|k: int| 0 <= k < n && (#[trigger] out@[k]).typ == CT_BITMAP,
            data_base + dc <= buf_bytes(*buf).len(),
            dc <= 8256 * j,
            me.room_at(j as int, data_base + dc),
            all_landed(me, buf_bytes(*buf), data_base as int, j as int, dc as int, offs),
            all_packed(me, buf_bytes(*buf), data_base as int, j as int, dc as int, offs),
            all_waiting(me, buf_bytes(*buf), j as int),
        decreases n - j,
    {
        let e: OutEntry = out[j];
        proof {
            assert(me.entry_ok(j as int));
            assert(me.slot_ok(e.slot as int));
            assert(holds(buf_bytes(*buf), me.out@[j as int], e.off as int, me.blocks()[j as int].lows));
            me.lemma_fits(j as int, data_base as int, dc as int, has_bitmap);
        }
        let ghost b0 = buf_bytes(*buf);
        let o: usize = place(buf_slice_mut(buf), n, j, data_base, dc, e);
        proof {
            lemma_align_up(dc as int, 2);
            me.lemma_placed(b0, buf_bytes(*buf), data_base as int, j as int, dc as int, o as int, offs);
            lemma_packed(me, b0, buf_bytes(*buf), data_base as int, j as int, dc as int, o as int, offs);
            offs = offs.push(o as int);
        }
        dc = o + e.data_size as usize;
        j = j + 1;
    }
    (dc, Ghost(offs))
}

} // verus!
