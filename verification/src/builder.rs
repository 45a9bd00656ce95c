//! Builds a frozen bitmap from values pushed in strictly ascending order.
use vstd::prelude::*;

use crate::arena::lemma_tidy;
use crate::bitmap::FrozenBitmap;
use crate::buffer::{
    aligned_buf, buf_bytes, buf_reserve, buf_resize, buf_room, buf_slice_mut, buf_truncate,
    AlignedBuf,
};
use crate::canon::{
    blocks_of, canonical, clean, finished, finished_as, finished_standard, header_bytes, header_for,
    in_payload, inline_exact, inline_wins,
};
use crate::container::{
    lemma_payload_frame, payload_ok, payload_set, payload_size, runs_ok, runs_set, Bitmap, Data,
    Run,
};
use crate::format::{
    align_up, align_up_spec, data_off_spec, data_section_off, entry_at, header_of, header_ok,
    inline_magic, inline_size, inline_size_spec, lemma_align_up, run_bytes, same_outside, u16_at,
    u32_at, write_index_entry, write_u16, write_u32, Header, IndexEntry, ARRAY_MAX_SIZE,
    BITMAP_BYTES, BUF_ALIGN, CT_ARRAY, CT_BITMAP, CT_RUN, INLINE_COUNT_OFF, INLINE_HEADER_SIZE,
    INLINE_MAGIC_0, INLINE_MAGIC_1, INLINE_MAX_COUNT,
};
use crate::frozen::{
    aligned_at, lemma_aligned,
    frozen_ok, inline_vals, lemma_std_from, std_base, std_blocks, std_entry, std_lows,
    std_payload_ok, tidy,
};
use crate::model::{
    asc16, asc32, blocks_ok, blocks_set, blocks_sum, hi, join, lemma_asc16_bound, lemma_asc16_len,
    lemma_asc32_len, lemma_blocks_last, lemma_blocks_len, lemma_join, lemma_set16, lemma_split, lo,
    one_block, Block,
};
use crate::words::{bits_set, clear, lemma_push_to_set, set_values};

verus! {

// --- choosing a container's form -----------------------------------------------

/// The values that start a maximal run.
pub open spec fn run_starts(s: Set<u16>) -> Set<u16> {
    Set::new(|x: u16| s.contains(x) && (x == 0 || !s.contains((x - 1) as u16)))
}

/// Stored size in run form: one pair per maximal run.
pub open spec fn run_cost(s: Set<u16>) -> int {
    (2 + 4 * run_starts(s).len()) as int
}

/// Stored size in array form.
pub open spec fn array_cost(s: Set<u16>) -> int {
    (2 * s.len()) as int
}

/// The smallest form of a container: runs on ties, then an array, then a bitmap.
pub open spec fn best_form(s: Set<u16>) -> u8 {
    if run_cost(s) <= array_cost(s) && run_cost(s) <= BITMAP_BYTES {
        CT_RUN
    } else if array_cost(s) <= BITMAP_BYTES {
        CT_ARRAY
    } else {
        CT_BITMAP
    }
}

/// Stored size in the smallest form.
pub open spec fn best_cost(s: Set<u16>) -> int {
    if best_form(s) == CT_RUN {
        run_cost(s)
    } else if best_form(s) == CT_ARRAY {
        array_cost(s)
    } else {
        BITMAP_BYTES as int
    }
}

/// No stored form is smaller than the chosen one.
pub proof fn lemma_best_cost(s: Set<u16>)
    ensures
        best_cost(s) <= run_cost(s),
        best_cost(s) <= array_cost(s),
        best_cost(s) <= BITMAP_BYTES,
{
}

/// Breaks between runs among the first `k` values: a value is one if it does not
/// continue the value before it.
spec fn breaks(vals: Seq<u16>, k: int) -> int
    decreases k,
{
    if k <= 0 {
        0
    } else {
        breaks(vals, k - 1) + if k == 1 || vals[k - 1] != vals[k - 2] + 1 {
            1int
        } else {
            0
        }
    }
}

proof fn lemma_breaks(vals: Seq<u16>, k: int)
    requires
        asc16(vals),
        0 <= k <= vals.len(),
    ensures
        breaks(vals, k) == run_starts(vals.take(k).to_set()).len(),
        0 <= breaks(vals, k) <= k,
    decreases k,
{
    let s = vals.take(k).to_set();
    if k <= 0 {
        assert(run_starts(s) =~= Set::<u16>::empty());
    } else {
        lemma_breaks(vals, k - 1);
        let p = vals.take(k - 1);
        let v = vals[k - 1];
        assert(vals.take(k) =~= p.push(v));
        lemma_push_to_set(p, v);
        assert forall|x: u16| p.contains(x) implies x < v by {
            let i = choose|i: int| 0 <= i < p.len() && p[i] == x;
            assert(vals[i] < vals[k - 1]);
        }
        lemma_set16(run_starts(p.to_set()));
        let fresh = k == 1 || vals[k - 1] != vals[k - 2] + 1;
        assert(fresh == (v == 0 || !p.contains((v - 1) as u16))) by {
            if k > 1 {
                assert(p[k - 2] == vals[k - 2]);
                if v > 0 && p.contains((v - 1) as u16) {
                    let i = choose|i: int| 0 <= i < p.len() && p[i] == v - 1;
                    if i < k - 2 {
                        assert(vals[i] < vals[k - 2]);
                    }
                }
            }
        }
        if fresh {
            assert(run_starts(s) =~= run_starts(p.to_set()).insert(v));
        } else {
            assert(run_starts(s) =~= run_starts(p.to_set()));
        }
    }
}

/// Number of maximal runs of consecutive values.
fn count_runs(vals: &[u16]) -> (r: usize)
    requires
        asc16(vals@),
    ensures
        r == run_starts(vals@.to_set()).len(),
        r <= vals.len(),
{
    let mut r: usize = 0;
    let mut i: usize = 0;
    while i < vals.len()
        invariant
            i <= vals.len(),
            r == breaks(vals@, i as int),
            r <= i,
        decreases vals.len() - i,
    {
        if i == 0 || vals[i] as u32 != vals[i - 1] as u32 + 1 {
            r = r + 1;
        }
        i = i + 1;
    }
    proof {
        lemma_breaks(vals@, vals.len() as int);
        assert(vals@.take(vals.len() as int) =~= vals@);
    }
    r
}

/// Run-length encode ascending values.
fn extract_runs(vals: &[u16], run_count: usize) -> (r: Vec<Run>)
    requires
        asc16(vals@),
        vals.len() > 0,
    ensures
        runs_ok(r@),
        runs_set(r@) == vals@.to_set(),
        r.len() == run_starts(vals@.to_set()).len(),
{
    let mut runs: Vec<Run> = Vec::with_capacity(run_count);
    let mut start: u16 = vals[0];
    let mut prev: u16 = vals[0];
    let mut i: usize = 1;
    proof {
        assert(breaks(vals@, 1) == breaks(vals@, 0) + 1);
        assert(runs@ =~= Seq::<Run>::empty());
        assert forall|x: u16| #[trigger] vals@.take(1).contains(x) <==> x == vals[0] by {
            assert(vals@.take(1)[0] == vals[0]);
        }
    }
    while i < vals.len()
        invariant
            1 <= i <= vals.len(),
            asc16(vals@),
            prev == vals[i - 1],
            start <= prev,
            runs.len() + 1 == breaks(vals@, i as int),
            runs_ok(runs@),
            runs.len() > 0 ==> runs@.last().last() < start,
            forall|x: u16| #[trigger]
                vals@.take(i as int).contains(x) <==> runs_set(runs@).contains(x) || start <= x <= prev,
        decreases vals.len() - i,
    {
        let v: u16 = vals[i];
        let ghost (before, p) = (runs@, vals@.take(i as int));
        proof {
            assert(vals[i - 1] < vals[i as int]);
            assert(vals@.take(i + 1) =~= p.push(v));
            lemma_push_to_set(p, v);
            assert forall|x: u16| #[trigger] vals@.take(i + 1).contains(x) <==> p.contains(x) || x == v by {
                assert(p.push(v).to_set().contains(x) == p.to_set().insert(v).contains(x));
            }
        }
        if v == prev + 1 {
            prev = v;
        } else {
            let r: Run = Run { start, len: prev - start };
            runs.push(r);
            proof {
                lemma_push_run(before, r);
            }
            start = v;
            prev = v;
        }
        i = i + 1;
    }
    let r: Run = Run { start, len: prev - start };
    let ghost before = runs@;
    runs.push(r);
    proof {
        lemma_push_run(before, r);
        assert(vals@.take(i as int) =~= vals@);
        lemma_breaks(vals@, vals.len() as int);
        assert forall|x: u16| runs_set(runs@).contains(x) == vals@.to_set().contains(x) by {
            assert(vals@.contains(x) <==> runs_set(before).contains(x) || start <= x <= prev);
        }
        assert(runs_set(runs@) =~= vals@.to_set());
    }
    runs
}

/// Appending a later run.
proof fn lemma_push_run(s: Seq<Run>, r: Run)
    requires
        runs_ok(s),
        r.wf(),
        s.len() > 0 ==> s.last().last() < r.start,
    ensures
        runs_ok(s.push(r)),
        forall|x: u16| #[trigger]
            runs_set(s.push(r)).contains(x) == (runs_set(s).contains(x) || r.start <= x <= r.last()),
{
    let t = s.push(r);
    assert forall|i: int, j: int| 0 <= i < j < t.len() implies (#[trigger] t[i]).last() < (
    #[trigger] t[j]).start by {
        if j == s.len() {
            if i < s.len() - 1 {
                assert(s[i].last() < s[s.len() - 1].start);
                assert(s[s.len() - 1].wf());
            }
        } else {
            assert(s[i].last() < s[j].start);
        }
    }
    assert forall|i: int| 0 <= i < t.len() implies (#[trigger] t[i]).wf() by {
        if i < s.len() {
            assert(s[i].wf());
        }
    }
    assert forall|x: u16| #[trigger]
        runs_set(t).contains(x) == (runs_set(s).contains(x) || r.start <= x <= r.last()) by {
        if runs_set(s).contains(x) {
            let i = choose|i: int| 0 <= i < s.len() && (#[trigger] s[i]).has(x);
            assert(t[i].has(x));
        }
        if r.has(x) {
            assert(t[s.len() as int].has(x));
        }
        if runs_set(t).contains(x) && !r.has(x) {
            let i = choose|i: int| 0 <= i < t.len() && (#[trigger] t[i]).has(x);
            assert(s[i].has(x));
        }
    }
}

/// A finished container in its winning form.
pub struct Built {
    key: u16,
    card: u32,
    data: Data,
}

impl Built {
    /// The payload is stored in the smallest form, under its cardinality.
    pub closed spec fn wf(self) -> bool {
        &&& self.data.storable()
        &&& self.card == self.data.set().len()
        &&& self.data.spec_typ() == best_form(self.data.set())
        &&& self.data.spec_bytes() == best_cost(self.data.set())
    }

    /// Key and values.
    pub closed spec fn block(self) -> Block {
        Block { key: self.key, lows: self.data.set() }
    }
}

/// Pick the smallest form for one key's ascending lows.
fn build_container(key: u16, vals: &[u16]) -> (r: Built)
    requires
        asc16(vals@),
        vals.len() > 0,
    ensures
        r.wf(),
        r.block() == (Block { key, lows: vals@.to_set() }),
{
    proof {
        lemma_asc16_len(vals@);
        lemma_asc16_bound(vals@);
    }
    let card: u32 = vals.len() as u32;
    let run_count: usize = count_runs(vals);
    let array_bytes: usize = vals.len() * 2;
    let runs_bytes: usize = run_bytes(run_count);
    let data: Data = if runs_bytes <= array_bytes && runs_bytes <= BITMAP_BYTES {
        Data::Run(extract_runs(vals, run_count))
    } else if array_bytes <= BITMAP_BYTES {
        let v: Vec<u16> = copy_values(vals);
        Data::Array(v)
    } else {
        let mut words: Box<Bitmap> = Box::new([0u64; 1024]);
        clear(&mut *words);
        set_values(&mut *words, vals);
        assert(bits_set((*words)@) =~= vals@.to_set());
        Data::Bitmap(words)
    };
    Built { key, card, data }
}

fn copy_values(vals: &[u16]) -> (r: Vec<u16>)
    ensures
        r@ == vals@,
{
    let mut r: Vec<u16> = Vec::with_capacity(vals.len());
    let mut i: usize = 0;
    while i < vals.len()
        invariant
            i <= vals.len(),
            r@ == vals@.take(i as int),
        decreases vals.len() - i,
    {
        r.push(vals[i]);
        assert(r@ =~= vals@.take(i + 1));
        i = i + 1;
    }
    assert(r@ =~= vals@);
    r
}

// --- standard layout -----------------------------------------------------------

/// The finished containers as keyed blocks.
pub open spec fn built_blocks(c: Seq<Built>) -> Seq<Block> {
    Seq::new(c.len(), |i: int| c[i].block())
}

/// Offset in the data section of block `k`'s payload: bitmaps 64-aligned, the rest
/// 2-aligned.
pub open spec fn block_off(s: Seq<Block>, k: int) -> int {
    align_up_spec(
        data_len(s, k),
        if best_form(s[k].lows) == CT_BITMAP {
            64
        } else {
            2
        },
    )
}

/// Data section bytes used by the first `k` blocks.
pub open spec fn data_len(s: Seq<Block>, k: int) -> int
    decreases k,
{
    if k <= 0 {
        0
    } else {
        align_up_spec(
            data_len(s, k - 1),
            if best_form(s[k - 1].lows) == CT_BITMAP {
                64
            } else {
                2
            },
        ) + best_cost(s[k - 1].lows)
    }
}

/// Some block is stored in form `f`.
pub open spec fn any_form(s: Seq<Block>, f: u8) -> bool {
    exists|i: int| 0 <= i < s.len() && best_form((#[trigger] s[i]).lows) == f
}

/// Size of the standard encoding of `s`.
pub open spec fn standard_size(s: Seq<Block>) -> int {
    data_off_spec(s.len() as int, any_form(s, CT_BITMAP)) + data_len(s, s.len() as int)
}

pub(crate) proof fn lemma_data_len(s: Seq<Block>, k: int)
    requires
        0 <= k <= s.len(),
        forall|i: int| 0 <= i < k ==> best_cost((#[trigger] s[i]).lows) > 0,
    ensures
        0 <= data_len(s, k) <= 8256 * k,
    decreases k,
{
    if k > 0 {
        lemma_data_len(s, k - 1);
        lemma_best_cost(s[k - 1].lows);
        lemma_align_up(data_len(s, k - 1), 64);
        lemma_align_up(data_len(s, k - 1), 2);
        assert(best_cost(s[k - 1].lows) > 0);
    }
}

/// All finished containers are well-formed, under ascending keys.
pub open spec fn built_ok(c: Seq<Built>) -> bool {
    &&& forall|i: int| 0 <= i < c.len() ==> (#[trigger] c[i]).wf()
    &&& blocks_ok(built_blocks(c))
}

proof fn lemma_built(c: Seq<Built>, i: int)
    requires
        built_ok(c),
        0 <= i < c.len(),
    ensures
        best_cost(built_blocks(c)[i].lows) > 0,
        built_blocks(c)[i] == c[i].block(),
        c[i].data.spec_bytes() == best_cost(built_blocks(c)[i].lows),
        c[i].data.spec_typ() == best_form(built_blocks(c)[i].lows),
{
    assert(c[i].wf());
    lemma_set16(c[i].data.set());
    c[i].data.lemma_listing();
}

proof fn lemma_built_count(c: Seq<Built>)
    requires
        built_ok(c),
    ensures
        c.len() <= 65536,
        forall|i: int|
            0 <= i < c.len() ==> best_cost((#[trigger] built_blocks(c)[i]).lows) > 0,
{
    let s = built_blocks(c);
    if c.len() > 65536 {
        lemma_block_key(s, 65536);
    }
    assert forall|i: int| 0 <= i < c.len() implies best_cost((#[trigger] s[i]).lows) > 0 by {
        lemma_built(c, i);
    }
}

proof fn lemma_block_key(s: Seq<Block>, i: int)
    requires
        blocks_ok(s),
        0 <= i < s.len(),
    ensures
        i <= s[i].key,
    decreases i,
{
    if i > 0 {
        lemma_block_key(s, i - 1);
        assert(s[i - 1].key < s[i].key);
    }
}

/// Layout of the standard encoding: total size, and whether there are run and
/// bitmap containers.
fn layout(containers: &Vec<Built>) -> (r: (usize, bool, bool))
    requires
        built_ok(containers@),
    ensures
        r.0 == standard_size(built_blocks(containers@)),
        r.0 <= 0x3FFF_FFFF,
        r.1 == any_form(built_blocks(containers@), CT_RUN),
        r.2 == any_form(built_blocks(containers@), CT_BITMAP),
{
    let ghost s = built_blocks(containers@);
    let mut has_runs: bool = false;
    let mut has_bitmap: bool = false;
    let mut cursor: usize = 0;
    let mut i: usize = 0;
    proof {
        lemma_built_count(containers@);
    }
    while i < containers.len()
        invariant
            i <= containers.len() <= 65536,
            built_ok(containers@),
            s == built_blocks(containers@),
            forall|k: int| 0 <= k < s.len() ==> best_cost((#[trigger] s[k]).lows) > 0,
            cursor == data_len(s, i as int),
            cursor <= 8256 * i,
            has_runs <==> exists|k: int| 0 <= k < i && best_form((#[trigger] s[k]).lows) == CT_RUN,
            has_bitmap <==> exists|k: int|
                0 <= k < i && best_form((#[trigger] s[k]).lows) == CT_BITMAP,
        decreases containers.len() - i,
    {
        let c: &Built = &containers[i];
        proof {
            lemma_built(containers@, i as int);
            assert(c.wf());
            assert(s[i as int].lows == c.data.set());
            lemma_data_len(s, i + 1);
        }
        let typ: u8 = c.data.typ();
        if typ == CT_RUN {
            has_runs = true;
        }
        if typ == CT_BITMAP {
            has_bitmap = true;
        }
        let align: usize = if typ == CT_BITMAP {
            BUF_ALIGN
        } else {
            2
        };
        proof {
            lemma_align_up(cursor as int, align as int);
        }
        cursor = align_up(cursor, align) + c.data.byte_len();
        i = i + 1;
    }
    proof {
        lemma_align_up(16 + 8 * containers.len(), 64);
        lemma_align_up(16 + 8 * containers.len(), 8);
    }
    let total: usize = data_section_off(containers.len(), has_bitmap) + cursor;
    (total, has_runs, has_bitmap)
}

/// Index entry of block `j`.
pub open spec fn entry_for(s: Seq<Block>, j: int) -> IndexEntry {
    IndexEntry {
        key: s[j].key,
        typ: best_form(s[j].lows),
        cardinality: s[j].lows.len() as u32,
        data_offset: block_off(s, j) as u32,
    }
}

/// Block `j` is in its place in `b`: its index entry and its payload.
pub open spec fn placed(b: Seq<u8>, s: Seq<Block>, base: int, j: int) -> bool {
    let (at, typ, card) = (base + block_off(s, j), best_form(s[j].lows), s[j].lows.len() as int);
    &&& entry_at(b, s.len() as int, j) == entry_for(s, j)
    &&& payload_ok(b, at, typ, card)
    &&& payload_set(b, at, typ, card) == s[j].lows
    &&& payload_size(b, at, typ, card) == best_cost(s[j].lows)
}

pub(crate) proof fn lemma_data_len_mono(s: Seq<Block>, j: int, k: int)
    requires
        0 <= j <= k <= s.len(),
        forall|i: int| 0 <= i < s.len() ==> best_cost((#[trigger] s[i]).lows) > 0,
    ensures
        0 <= data_len(s, j) <= data_len(s, k),
    decreases k - j,
{
    lemma_data_len(s, j);
    if j < k {
        lemma_data_len_mono(s, j, k - 1);
        lemma_align_up(data_len(s, k - 1), 64);
        lemma_align_up(data_len(s, k - 1), 2);
        assert(best_cost(s[k - 1].lows) > 0);
    }
}

/// Bytes changed past the first `k` payloads leave them and the index alone.
proof fn lemma_placed_frame(
    b: Seq<u8>,
    c: Seq<u8>,
    s: Seq<Block>,
    base: int,
    k: int,
    from: int,
    to: int,
)
    requires
        0 <= k <= s.len(),
        forall|i: int| 0 <= i < s.len() ==> best_cost((#[trigger] s[i]).lows) > 0,
        16 + 8 * s.len() <= base,
        base + data_len(s, k) <= from,
        same_outside(c, b, from, to),
        base <= b.len(),
        forall|j: int| 0 <= j < k ==> #[trigger] placed(b, s, base, j),
    ensures
        forall|j: int| 0 <= j < k ==> #[trigger] placed(c, s, base, j),
        forall|j: int|
            0 <= j < s.len() ==> #[trigger] entry_at(c, s.len() as int, j) == entry_at(
                b,
                s.len() as int,
                j,
            ),
{
    let n = s.len() as int;
    lemma_data_len_mono(s, 0, k);
    assert forall|j: int| 0 <= j < n implies #[trigger] entry_at(c, n, j) == entry_at(b, n, j) by {
        lemma_entry_frame(b, c, n, j);
    }
    assert forall|j: int| 0 <= j < k implies #[trigger] placed(c, s, base, j) by {
        assert(placed(b, s, base, j));
        lemma_data_len_mono(s, j + 1, k);
        lemma_data_len_mono(s, 0, j);
        lemma_align_up(data_len(s, j), 64);
        lemma_align_up(data_len(s, j), 2);
        lemma_payload_frame(
            b,
            c,
            base + block_off(s, j),
            best_form(s[j].lows),
            s[j].lows.len() as int,
        );
    }
}

/// An index entry depends on the index bytes alone.
pub proof fn lemma_entry_frame(b: Seq<u8>, c: Seq<u8>, n: int, j: int)
    requires
        0 <= j < n,
        16 + 8 * n <= b.len(),
        b.len() == c.len(),
        forall|k: int| 16 <= k < 16 + 8 * n ==> b[k] == c[k],
    ensures
        entry_at(c, n, j) == entry_at(b, n, j),
{
}

/// Lay out header, index and data section in `buf`, whatever it held.
#[verifier::rlimit(40)]
fn serialize_standard(containers: &Vec<Built>, total_card: u64, buf: AlignedBuf) -> (r: FrozenBitmap)
    requires
        built_ok(containers@),
        total_card == blocks_sum(built_blocks(containers@)),
    ensures
        !inline_magic(r.src()),
        r.src().len() == standard_size(built_blocks(containers@)),
        std_blocks(r.src()) == built_blocks(containers@),
        forall|i: int|
            0 <= i < containers.len() ==> (#[trigger] std_entry(r.src(), i)).typ == best_form(
                built_blocks(containers@)[i].lows,
            ),
        canonical(r.src(), built_blocks(containers@)),
        tidy(r.src()),
        r.room() >= buf_room(buf),
{
    let ghost was = buf_room(buf);
    let ghost s = built_blocks(containers@);
    let n: usize = containers.len();
    let (total, has_runs, has_bitmap): (usize, bool, bool) = layout(containers);
    proof {
        lemma_built_count(containers@);
        lemma_data_len(s, n as int);
        lemma_align_up(16 + 8 * n, 64);
        lemma_align_up(16 + 8 * n, 8);
        lemma_blocks_len(s);
        crate::model::lemma_set32(blocks_set(s));
    }
    let data_base: usize = data_section_off(n, has_bitmap);
    let mut buf: AlignedBuf = buf;
    buf_truncate(&mut buf, 0);
    buf_reserve(&mut buf, total);
    buf_resize(&mut buf, total, 0);
    let h: Header = Header { has_runs, has_bitmap, num_containers: n as u32, cardinality: total_card };
    h.write(buf_slice_mut(&mut buf));
    let mut cursor: usize = 0;
    let mut i: usize = 0;
    while i < n
        invariant
            i <= n <= 65536,
            n == containers.len(),
            built_ok(containers@),
            s == built_blocks(containers@),
            forall|k: int| 0 <= k < s.len() ==> best_cost((#[trigger] s[k]).lows) > 0,
            data_base == data_off_spec(n as int, has_bitmap),
            16 + 8 * n <= data_base,
            total == data_base + data_len(s, n as int),
            total <= 0x3FFF_FFFF,
            buf_bytes(buf).len() == total,
            buf_room(buf) >= was,
            cursor == data_len(s, i as int),
            header_ok(buf_bytes(buf)),
            header_of(buf_bytes(buf)) == h,
            header_bytes(buf_bytes(buf), h),
            clean(buf_bytes(buf), s, data_base as int, i as int),
            forall|j: int| 0 <= j < i ==> #[trigger] placed(buf_bytes(buf), s, data_base as int, j),
        decreases n - i,
    {
        let c: &Built = &containers[i];
        proof {
            lemma_built(containers@, i as int);
            assert(c.wf());
            c.data.lemma_listing();
            lemma_data_len_mono(s, i + 1, n as int);
            lemma_data_len_mono(s, 0, i as int);
        }
        let align: usize = if c.data.typ() == CT_BITMAP {
            BUF_ALIGN
        } else {
            2
        };
        proof {
            lemma_align_up(cursor as int, 64);
            lemma_align_up(cursor as int, 2);
        }
        cursor = align_up(cursor, align);
        let e: IndexEntry = IndexEntry {
            key: c.key,
            typ: c.data.typ(),
            cardinality: c.card,
            data_offset: cursor as u32,
        };
        assert(e == entry_for(s, i as int));
        let ghost b0 = buf_bytes(buf);
        write_index_entry(buf_slice_mut(&mut buf), n, i, e);
        let ghost b1 = buf_bytes(buf);
        proof {
            assert forall|j: int| 0 <= j < i implies #[trigger] placed(b1, s, data_base as int, j) by {
                assert(placed(b0, s, data_base as int, j));
                assert(entry_at(b1, n as int, j) == entry_at(b0, n as int, j));
                lemma_data_len_mono(s, 0, j);
                lemma_align_up(data_len(s, j), 64);
                lemma_align_up(data_len(s, j), 2);
                lemma_payload_frame(
                    b0,
                    b1,
                    data_base + block_off(s, j),
                    best_form(s[j].lows),
                    s[j].lows.len() as int,
                );
            }
        }
        let start: usize = data_base + cursor;
        let len: usize = c.data.byte_len();
        c.data.store(buf_slice_mut(&mut buf), start);
        let ghost b2 = buf_bytes(buf);
        proof {
            lemma_placed_frame(
                b1,
                b2,
                s,
                data_base as int,
                i as int,
                start as int,
                start + len,
            );
            assert(entry_at(b2, n as int, i as int) == entry_at(b1, n as int, i as int));
            assert(placed(b2, s, data_base as int, i as int));
            assert(header_bytes(b2, h));
            lemma_clean_step(b0, b2, s, data_base as int, i as int);
        }
        cursor = cursor + len;
        i = i + 1;
    }
    proof {
        lemma_serialized(buf_bytes(buf), s, h);
        assert(h == header_for(s));
        lemma_canonical_tidy(buf_bytes(buf), s);
    }
    FrozenBitmap::from_buf(buf)
}

/// The standard encoding has exact flags and aligned bitmaps.
pub(crate) proof fn lemma_canonical_tidy(b: Seq<u8>, s: Seq<Block>)
    requires
        s.len() <= 65536,
        forall|k: int| 0 <= k < s.len() ==> best_cost((#[trigger] s[k]).lows) > 0,
        header_of(b) == header_for(s),
        forall|j: int|
            0 <= j < s.len() ==> #[trigger] placed(
                b,
                s,
                data_off_spec(s.len() as int, any_form(s, CT_BITMAP)),
                j,
            ),
    ensures
        tidy(b),
{
    let n = s.len() as int;
    let base = data_off_spec(n, any_form(s, CT_BITMAP));
    let typs = Seq::new(n as nat, |k: int| best_form(s[k].lows));
    let offs = Seq::new(n as nat, |k: int| block_off(s, k));
    lemma_align_up(16 + 8 * n, 64);
    assert forall|f: u8| any_form(s, f) <==> #[trigger] typs.contains(f) by {
        if any_form(s, f) {
            let k = choose|k: int| 0 <= k < n && best_form((#[trigger] s[k]).lows) == f;
            assert(typs[k] == f);
        }
        if typs.contains(f) {
            let k = choose|k: int| 0 <= k < n && typs[k] == f;
            assert(best_form(s[k].lows) == f);
        }
    }
    assert forall|k: int| 0 <= k < n implies (#[trigger] std_entry(b, k)).typ == typs[k]
        && std_entry(b, k).data_offset == offs[k] by {
        assert(placed(b, s, base, k));
        lemma_data_len(s, k);
        lemma_align_up(data_len(s, k), 64);
        lemma_align_up(data_len(s, k), 2);
    }
    assert forall|k: int| 0 <= k < n && #[trigger] typs[k] == CT_BITMAP implies offs[k] % 64
        == 0 by {
        lemma_data_len(s, k);
        lemma_align_up(data_len(s, k), 64);
    }
    lemma_tidy(b, typs, offs);
}

/// Another payload leaves the bytes outside the payloads zero.
proof fn lemma_clean_step(b: Seq<u8>, c: Seq<u8>, s: Seq<Block>, base: int, i: int)
    requires
        0 <= i < s.len(),
        clean(b, s, base, i),
        b.len() == c.len(),
        forall|k: int|
            16 + 8 * s.len() <= k < b.len() && !(block_off(s, i) <= k - base < block_off(s, i)
                + best_cost(s[i].lows)) ==> b[k] == c[k],
    ensures
        clean(c, s, base, i + 1),
{
    assert forall|k: int|
        16 + 8 * s.len() <= k < c.len() && !in_payload(s, base, i + 1, k) implies #[trigger] c[k]
        == 0 by {
        if in_payload(s, base, i, k) {
            let j = choose|j: int|
                0 <= j < i && #[trigger] block_off(s, j) <= k - base < block_off(s, j) + best_cost(
                    s[j].lows,
                );
            assert(0 <= j < i + 1 && block_off(s, j) <= k - base < block_off(s, j) + best_cost(
                s[j].lows,
            ));
        }
        assert(b[k] == 0);
        if block_off(s, i) <= k - base < block_off(s, i) + best_cost(s[i].lows) {
            assert(in_payload(s, base, i + 1, k));
        }
    }
}

proof fn lemma_serialized(b: Seq<u8>, s: Seq<Block>, h: Header)
    requires
        blocks_ok(s),
        s.len() <= 65536,
        forall|k: int| 0 <= k < s.len() ==> best_cost((#[trigger] s[k]).lows) > 0,
        header_ok(b),
        header_of(b) == h,
        h.num_containers == s.len(),
        h.has_bitmap == any_form(s, CT_BITMAP),
        h.cardinality == blocks_sum(s),
        b.len() == standard_size(s),
        forall|j: int|
            0 <= j < s.len() ==> #[trigger] placed(
                b,
                s,
                data_off_spec(s.len() as int, h.has_bitmap),
                j,
            ),
    ensures
        !inline_magic(b),
        frozen_ok(b),
        std_blocks(b) == s,
        forall|i: int| 0 <= i < s.len() ==> (#[trigger] std_entry(b, i)).typ == best_form(s[i].lows),
{
    let n = s.len() as int;
    let base = std_base(b);
    lemma_align_up(16 + 8 * n, 64);
    lemma_align_up(16 + 8 * n, 8);
    lemma_data_len(s, n);
    assert forall|i: int| 0 <= i < n implies #[trigger] std_payload_ok(b, i) && std_entry(b, i)
        == entry_for(s, i) && std_lows(b, i) == s[i].lows && aligned_at(b, i) by {
        assert(placed(b, s, base, i));
        lemma_set16(s[i].lows);
        lemma_data_len_mono(s, 0, i);
        lemma_data_len(s, i);
        lemma_align_up(data_len(s, i), 64);
        lemma_align_up(data_len(s, i), 2);
        lemma_aligned(b, i);
    }
    lemma_std_from(b, s);
    assert forall|i: int| 0 <= i < n implies (#[trigger] std_entry(b, i)).typ == best_form(
        s[i].lows,
    ) by {
        assert(std_payload_ok(b, i));
    }
}

// --- inline layout -------------------------------------------------------------

/// Append the values of one block.
fn push_block(key: u16, lows: &Vec<u16>, out: &mut Vec<u32>)
    requires
        asc16(lows@),
        asc32(old(out)@),
        forall|i: int| 0 <= i < old(out).len() ==> hi(#[trigger] old(out)@[i]) < key,
    ensures
        asc32(final(out)@),
        final(out)@.to_set() == old(out)@.to_set().union(
            one_block(Block { key, lows: lows@.to_set() }),
        ),
        forall|i: int| 0 <= i < final(out).len() ==> hi(#[trigger] final(out)@[i]) <= key,
        final(out).len() == old(out).len() + lows.len(),
{
    let mut j: usize = 0;
    let ghost n0 = out.len() as int;
    while j < lows.len()
        invariant
            j <= lows.len(),
            asc16(lows@),
            n0 == old(out).len(),
            out.len() == n0 + j,
            out@.take(n0) == old(out)@,
            forall|i: int| 0 <= i < n0 ==> hi(#[trigger] out@[i]) < key,
            forall|i: int| 0 <= i < j ==> #[trigger] out@[n0 + i] == join(key, lows[i]),
            asc32(out@),
        decreases lows.len() - j,
    {
        let v: u32 = key as u32 * 65536 + lows[j] as u32;
        let ghost before = out@;
        out.push(v);
        proof {
            lemma_join(key, lows[j as int]);
            assert(out@.take(n0) =~= before.take(n0));
            assert forall|i: int| 0 <= i < out.len() - 1 implies #[trigger] out@[i] < v by {
                if i < n0 {
                    lemma_split(out@[i]);
                } else {
                    assert(out@[n0 + (i - n0)] == join(key, lows[i - n0]));
                    lemma_join(key, lows[i - n0]);
                    assert(lows[i - n0] < lows[j as int]);
                }
            }
        }
        j = j + 1;
    }
    proof {
        let b = Block { key, lows: lows@.to_set() };
        assert forall|x: u32|
            out@.to_set().contains(x) == (old(out)@.to_set().contains(x) || one_block(b).contains(x)) by {
            if out@.contains(x) {
                let i = choose|i: int| 0 <= i < out.len() && out@[i] == x;
                if i < n0 {
                    assert(old(out)@[i] == out@.take(n0)[i]);
                } else {
                    assert(out@[n0 + (i - n0)] == join(key, lows[i - n0]));
                    lemma_join(key, lows[i - n0]);
                    assert(lows@.contains(lows@[i - n0]));
                }
            }
            if old(out)@.contains(x) {
                let i = choose|i: int| 0 <= i < n0 && old(out)@[i] == x;
                assert(out@.take(n0)[i] == x);
                assert(out@[i] == x);
            }
            if one_block(b).contains(x) {
                let i = choose|i: int| 0 <= i < lows.len() && lows@[i] == lo(x);
                lemma_split(x);
                assert(out@[n0 + i] == x);
            }
        }
        assert(out@.to_set() =~= old(out)@.to_set().union(one_block(b)));
        assert forall|i: int| 0 <= i < out.len() implies hi(#[trigger] out@[i]) <= key by {
            if i >= n0 {
                assert(out@[n0 + (i - n0)] == join(key, lows[i - n0]));
                lemma_join(key, lows[i - n0]);
            }
        }
    }
}

/// All values of the containers, ascending.
fn collect_values(containers: &Vec<Built>) -> (r: Vec<u32>)
    requires
        built_ok(containers@),
    ensures
        asc32(r@),
        r@.to_set() == blocks_set(built_blocks(containers@)),
{
    let ghost s = built_blocks(containers@);
    let mut out: Vec<u32> = Vec::new();
    let mut lows: Vec<u16> = Vec::new();
    let mut i: usize = 0;
    assert(out@.to_set() =~= blocks_set(s.take(0)));
    while i < containers.len()
        invariant
            i <= containers.len(),
            built_ok(containers@),
            s == built_blocks(containers@),
            asc32(out@),
            out@.to_set() == blocks_set(s.take(i as int)),
            forall|k: int| 0 <= k < out.len() ==> i > 0 && hi(#[trigger] out@[k]) <= s[i - 1].key,
        decreases containers.len() - i,
    {
        let c: &Built = &containers[i];
        assert(c.wf());
        lows.clear();
        c.data.for_each(&mut lows);
        proof {
            c.data.lemma_listing();
            assert(lows@ =~= c.data.listing());
            assert(s[i as int] == c.block());
            if i > 0 {
                assert(s[i - 1].key < s[i as int].key);
            }
            let t = s.take(i + 1);
            assert(t.drop_last() =~= s.take(i as int));
            assert(blocks_ok(t)) by {
                assert forall|a: int, b: int| 0 <= a < b < t.len() implies (#[trigger] t[a]).key < (
                #[trigger] t[b]).key by {
                    assert(s[a].key < s[b].key);
                }
                assert forall|a: int| 0 <= a < t.len() implies (#[trigger] t[a]).lows.len() > 0 by {
                    assert(s[a].lows.len() > 0);
                }
            }
            lemma_blocks_last(t);
        }
        push_block(c.key, &lows, &mut out);
        i = i + 1;
    }
    assert(s.take(i as int) =~= s);
    out
}

/// Pack the values: magic, count, then each value as a `u32`.
fn serialize_inline(vals: &Vec<u32>, buf: AlignedBuf) -> (r: FrozenBitmap)
    requires
        asc32(vals@),
        vals.len() <= INLINE_MAX_COUNT,
    ensures
        inline_magic(r.src()),
        inline_vals(r.src()) == vals@,
        r.src().len() == inline_size_spec(vals.len() as int),
        inline_exact(r.src(), vals@),
        r.room() >= buf_room(buf),
{
    let count: usize = vals.len();
    proof {
        lemma_align_up(4 + 4 * count, 8);
    }
    let total: usize = inline_size(count);
    let mut buf: AlignedBuf = buf;
    buf_truncate(&mut buf, 0);
    buf_reserve(&mut buf, total);
    let ghost room = buf_room(buf);
    buf_resize(&mut buf, total, 0);
    let bytes: &mut [u8] = buf_slice_mut(&mut buf);
    bytes[0] = INLINE_MAGIC_0;
    bytes[1] = INLINE_MAGIC_1;
    write_u16(bytes, INLINE_COUNT_OFF, count as u16);
    let mut i: usize = 0;
    while i < count
        invariant
            i <= count <= INLINE_MAX_COUNT,
            count == vals.len(),
            4 + 4 * count <= bytes.len() == total,
            bytes[0] == INLINE_MAGIC_0,
            bytes[1] == INLINE_MAGIC_1,
            u16_at(bytes@, 2) == count,
            forall|k: int| 0 <= k < i ==> #[trigger] vals[k] == u32_at(bytes@, 4 + 4 * k),
            forall|k: int| 4 + 4 * count <= k < bytes.len() ==> #[trigger] bytes@[k] == 0,
            buf_bytes(after_borrow(buf)) == final(bytes)@,
            buf_room(after_borrow(buf)) == room,
        decreases count - i,
    {
        write_u32(bytes, INLINE_HEADER_SIZE + 4 * i, vals[i]);
        i = i + 1;
    }
    assert(inline_vals(bytes@) =~= vals@);
    FrozenBitmap::from_buf(buf)
}

// --- builder -------------------------------------------------------------------

/// Accumulates ascending values, then serializes them to a [`FrozenBitmap`].
pub struct FrozenBitmapBuilder {
    containers: Vec<Built>,
    cur_key: u16,
    /// Lows of the open container, reused across containers.
    cur: Vec<u16>,
    have_cur: bool,
    total: u64,
}

/// One block after the others.
pub proof fn lemma_push_block(s: Seq<Block>, b: Block)
    requires
        blocks_ok(s),
        s.len() > 0 ==> s.last().key < b.key,
        b.lows.len() > 0,
    ensures
        blocks_ok(s.push(b)),
        blocks_set(s.push(b)) == blocks_set(s).union(one_block(b)),
        blocks_sum(s.push(b)) == blocks_sum(s) + b.lows.len(),
{
    let t = s.push(b);
    assert forall|i: int, j: int| 0 <= i < j < t.len() implies (#[trigger] t[i]).key < (
    #[trigger] t[j]).key by {
        if j == s.len() {
            if i < s.len() - 1 {
                assert(s[i].key < s[s.len() - 1].key);
            }
        } else {
            assert(s[i].key < s[j].key);
        }
    }
    assert forall|i: int| 0 <= i < t.len() implies (#[trigger] t[i]).lows.len() > 0 by {
        if i < s.len() {
            assert(s[i].lows.len() > 0);
        }
    }
    assert(t.drop_last() =~= s);
    lemma_blocks_last(t);
}

impl FrozenBitmapBuilder {
    /// Finished containers under ascending keys, and an open one past them.
    pub closed spec fn wf(self) -> bool {
        &&& self.parts_ok()
        &&& self.have_cur || self.containers.len() == 0
    }

    spec fn parts_ok(self) -> bool {
        &&& built_ok(self.containers@)
        &&& self.total == blocks_sum(built_blocks(self.containers@))
        &&& asc16(self.cur@)
        &&& self.have_cur <==> self.cur.len() > 0
        &&& self.have_cur && self.containers.len() > 0 ==> built_blocks(
            self.containers@,
        ).last().key < self.cur_key
    }

    /// The open container.
    spec fn open_block(self) -> Block {
        Block { key: self.cur_key, lows: self.cur@.to_set() }
    }

    /// The values pushed so far, by block.
    pub closed spec fn blocks(self) -> Seq<Block> {
        if self.have_cur {
            built_blocks(self.containers@).push(self.open_block())
        } else {
            built_blocks(self.containers@)
        }
    }

    /// The values pushed so far.
    pub open spec fn set(self) -> Set<u32> {
        blocks_set(self.blocks())
    }

    /// The blocks are the non-empty blocks of the pushed values, under ascending keys.
    pub proof fn lemma_blocks(self)
        requires
            self.wf(),
        ensures
            blocks_ok(self.blocks()),
    {
        if self.have_cur {
            lemma_asc16_len(self.cur@);
            lemma_push_block(built_blocks(self.containers@), self.open_block());
        }
    }

    /// A new, empty builder.
    pub fn new() -> (r: Self)
        ensures
            r.wf(),
            r.set() == Set::<u32>::empty(),
            r.blocks() == Seq::<Block>::empty(),
    {
        let r: FrozenBitmapBuilder = FrozenBitmapBuilder {
            containers: Vec::new(),
            cur_key: 0,
            cur: Vec::with_capacity(ARRAY_MAX_SIZE),
            have_cur: false,
            total: 0,
        };
        proof {
            assert(built_blocks(r.containers@) =~= Seq::<Block>::empty());
            assert(r.set() =~= Set::<u32>::empty());
        }
        r
    }

    /// Push a value strictly greater than every value pushed before.
    pub fn push(&mut self, value: u32)
        requires
            old(self).wf(),
            forall|x: u32| #[trigger] old(self).set().contains(x) ==> x < value,
        ensures
            final(self).wf(),
            final(self).set() == old(self).set().insert(value),
    {
        let key: u16 = (value / 65536) as u16;
        let low: u16 = (value % 65536) as u16;
        let ghost fin = built_blocks(self.containers@);
        proof {
            lemma_split(value);
            if self.have_cur {
                lemma_asc16_len(self.cur@);
                lemma_push_block(fin, self.open_block());
                let m = self.cur@.last();
                assert(self.cur@.contains(m));
                let top = join(self.cur_key, m);
                lemma_join(self.cur_key, m);
                assert(one_block(self.open_block()).contains(top));
                assert(self.set().contains(top));
            }
        }
        if self.have_cur && key == self.cur_key {
            let ghost before = self.cur@;
            self.cur.push(low);
            proof {
                assert(self.cur@ == before.push(low));
                lemma_push_to_set(before, low);
                lemma_asc16_len(self.cur@);
                lemma_push_block(fin, self.open_block());
                assert forall|x: u32|
                    self.set().contains(x) == old(self).set().insert(value).contains(x) by {
                    lemma_split(x);
                }
                assert(self.set() =~= old(self).set().insert(value));
            }
        } else {
            if self.have_cur {
                self.flush();
            }
            let ghost fin1 = built_blocks(self.containers@);
            self.cur_key = key;
            self.cur.push(low);
            self.have_cur = true;
            proof {
                assert(self.cur@ =~= seq![low]);
                assert forall|x: u16| self.cur@.to_set().contains(x) == (x == low) by {
                    assert(self.cur@[0] == low);
                }
                lemma_asc16_len(self.cur@);
                lemma_push_block(fin1, self.open_block());
                assert forall|x: u32|
                    self.set().contains(x) == old(self).set().insert(value).contains(x) by {
                    lemma_split(x);
                }
                assert(self.set() =~= old(self).set().insert(value));
            }
        }
    }

    /// Push every value of `vals`, each strictly greater than all before it.
    pub fn extend_sorted(&mut self, vals: &[u32])
        requires
            old(self).wf(),
            asc32(vals@),
            forall|x: u32| #[trigger]
                old(self).set().contains(x) ==> vals.len() > 0 ==> x < vals[0],
        ensures
            final(self).wf(),
            final(self).set() == old(self).set().union(vals@.to_set()),
    {
        let mut i: usize = 0;
        assert(self.set() =~= old(self).set().union(vals@.take(0).to_set()));
        while i < vals.len()
            invariant
                i <= vals.len(),
                self.wf(),
                asc32(vals@),
                forall|x: u32| #[trigger]
                    old(self).set().contains(x) ==> vals.len() > 0 ==> x < vals[0],
                self.set() == old(self).set().union(vals@.take(i as int).to_set()),
            decreases vals.len() - i,
        {
            proof {
                assert forall|x: u32| #[trigger] self.set().contains(x) implies x < vals[i as int] by {
                    if old(self).set().contains(x) {
                        assert(vals[0] <= vals[i as int]);
                    } else {
                        let k = choose|k: int| 0 <= k < i && vals@.take(i as int)[k] == x;
                        assert(vals[k] < vals[i as int]);
                    }
                }
                assert(vals@.take(i + 1) =~= vals@.take(i as int).push(vals[i as int]));
                vals@.take(i as int).lemma_push_to_set_commute(vals[i as int]);
            }
            self.push(vals[i]);
            assert(self.set() =~= old(self).set().union(vals@.take(i + 1).to_set()));
            i = i + 1;
        }
        assert(vals@.take(i as int) =~= vals@);
    }

    /// Finish as the smallest encoding: inline when it beats the standard layout, else
    /// standard, each container in its smallest form.
    pub fn finish(self) -> (r: FrozenBitmap)
        requires
            self.wf(),
        ensures
            self.finished_into(r),
    {
        self.finish_in(aligned_buf(0))
    }

    /// What [`finish`](Self::finish) makes.
    pub open spec fn finished_into(self, r: FrozenBitmap) -> bool {
        &&& r.set() == self.set()
        &&& inline_magic(r.src()) <==> self.set().len() <= INLINE_MAX_COUNT && inline_size_spec(
            self.set().len() as int,
        ) < standard_size(self.blocks())
        &&& inline_magic(r.src()) ==> r.src().len() == inline_size_spec(self.set().len() as int)
        &&& !inline_magic(r.src()) ==> r.src().len() == standard_size(self.blocks())
        &&& !inline_magic(r.src()) ==> std_blocks(r.src()) == self.blocks() && forall|i: int|
            0 <= i < self.blocks().len() ==> (#[trigger] std_entry(r.src(), i)).typ == best_form(
                self.blocks()[i].lows,
            )
        &&& !inline_magic(r.src()) ==> tidy(r.src())
        &&& finished(r.src(), self.set())
    }

    /// Finish in the memory of `buf`, whatever it held.
    pub(crate) fn finish_in(self, buf: AlignedBuf) -> (r: FrozenBitmap)
        requires
            self.wf(),
        ensures
            self.finished_into(r),
            r.room() >= buf_room(buf),
    {
        let ghost me = self;
        let mut b: FrozenBitmapBuilder = self;
        if b.have_cur {
            b.flush();
        }
        proof {
            me.lemma_blocks();
            assert(blocks_of(me.blocks(), me.set()));
            assert(built_blocks(b.containers@) == me.blocks());
            lemma_blocks_len(me.blocks());
        }
        if b.total <= INLINE_MAX_COUNT as u64 {
            let (standard_total, _, _): (usize, bool, bool) = layout(&b.containers);
            if inline_size(b.total as usize) < standard_total {
                let vals: Vec<u32> = collect_values(&b.containers);
                proof {
                    lemma_asc32_len(vals@);
                    assert(inline_wins(me.blocks()));
                }
                let r: FrozenBitmap = serialize_inline(&vals, buf);
                assert(finished_as(r.src(), me.blocks(), me.set()));
                return r;
            }
        }
        let r: FrozenBitmap = serialize_standard(&b.containers, b.total, buf);
        assert(finished_as(r.src(), me.blocks(), me.set()));
        r
    }

    /// Finish as standard format unconditionally.
    pub fn finish_standard(self) -> (r: FrozenBitmap)
        requires
            self.wf(),
        ensures
            r.set() == self.set(),
            !inline_magic(r.src()),
            r.src().len() == standard_size(self.blocks()),
            std_blocks(r.src()) == self.blocks(),
            forall|i: int|
                0 <= i < self.blocks().len() ==> (#[trigger] std_entry(r.src(), i)).typ == best_form(
                    self.blocks()[i].lows,
                ),
            tidy(r.src()),
            finished_standard(r.src(), self.set()),
    {
        self.finish_standard_in(aligned_buf(0))
    }

    /// Finish as standard format in the memory of `buf`, whatever it held.
    pub(crate) fn finish_standard_in(self, buf: AlignedBuf) -> (r: FrozenBitmap)
        requires
            self.wf(),
        ensures
            r.set() == self.set(),
            !inline_magic(r.src()),
            r.src().len() == standard_size(self.blocks()),
            std_blocks(r.src()) == self.blocks(),
            forall|i: int|
                0 <= i < self.blocks().len() ==> (#[trigger] std_entry(r.src(), i)).typ == best_form(
                    self.blocks()[i].lows,
                ),
            tidy(r.src()),
            finished_standard(r.src(), self.set()),
            r.room() >= buf_room(buf),
    {
        let ghost me = self;
        let mut b: FrozenBitmapBuilder = self;
        if b.have_cur {
            b.flush();
        }
        proof {
            me.lemma_blocks();
            assert(blocks_of(me.blocks(), me.set()));
        }
        assert(built_blocks(b.containers@) == me.blocks());
        serialize_standard(&b.containers, b.total, buf)
    }

    /// Push a whole block, under a key past all before it.
    pub(crate) fn push_container(&mut self, key: u16, lows: &[u16])
        requires
            old(self).wf(),
            asc16(lows@),
            lows.len() > 0,
            old(self).blocks().len() > 0 ==> old(self).blocks().last().key < key,
        ensures
            final(self).wf(),
            final(self).blocks() == old(self).blocks().push(Block { key, lows: lows@.to_set() }),
    {
        if self.have_cur {
            self.flush();
        }
        self.cur_key = key;
        self.cur = copy_values(lows);
        self.have_cur = true;
        assert(self.cur@ =~= lows@);
    }

    /// Close the open container.
    fn flush(&mut self)
        requires
            old(self).wf(),
            old(self).have_cur,
        ensures
            final(self).parts_ok(),
            !final(self).have_cur,
            built_blocks(final(self).containers@) == old(self).blocks(),
            built_blocks(final(self).containers@).last().key == old(self).cur_key,
            final(self).containers.len() > 0,
    {
        let ghost fin = built_blocks(self.containers@);
        proof {
            lemma_asc16_len(self.cur@);
            lemma_push_block(fin, self.open_block());
            lemma_blocks_len(self.blocks());
            crate::model::lemma_set32(self.set());
        }
        let built: Built = build_container(self.cur_key, self.cur.as_slice());
        let ghost before = self.containers@;
        self.total = self.total + built.card as u64;
        self.containers.push(built);
        self.cur.clear();
        self.have_cur = false;
        proof {
            assert(built_blocks(self.containers@) =~= fin.push(old(self).open_block()));
            assert forall|i: int| 0 <= i < self.containers.len() implies (
            #[trigger] self.containers@[i]).wf() by {
                if i < before.len() {
                    assert(before[i].wf());
                }
            }
        }
    }
}

impl Default for FrozenBitmapBuilder {
    fn default() -> (r: Self)
        ensures
            r.wf(),
            r.set() == Set::<u32>::empty(),
            r.blocks() == Seq::<Block>::empty(),
    {
        FrozenBitmapBuilder::new()
    }
}

impl FrozenBitmap {
    /// The empty frozen bitmap.
    pub fn empty() -> (r: Self)
        ensures
            r.set() == Set::<u32>::empty(),
            inline_magic(r.src()),
            r.src().len() == 8,
    {
        let vals: Vec<u32> = Vec::new();
        let r: FrozenBitmap = serialize_inline(&vals, aligned_buf(0));
        assert(r.set() =~= Set::<u32>::empty());
        r
    }
}

} // verus!
