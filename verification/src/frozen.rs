//! What frozen bytes mean: which byte strings are well-formed frozen bitmaps, and
//! the set of values each one holds.
use vstd::prelude::*;

use crate::container::{lemma_payload_len, packed_at, payload_ok, payload_set, payload_size};
use crate::format::{
    align_up_spec, card_word, data_off_spec, entry_at, flag_word, header_of, header_ok,
    inline_magic, key_at, keys_ascend, u16_at, u32_at, IndexEntry, ARRAY_MAX_SIZE, BITMAP_BYTES,
    CT_ARRAY, CT_BITMAP, CT_RUN,
};
use crate::model::{
    asc32, blocks_ok, blocks_set, blocks_sum, lemma_asc32_len, lemma_blocks_len, Block,
};

verus! {

// --- standard encoding -----------------------------------------------------------

/// Number of containers.
pub open spec fn std_n(b: Seq<u8>) -> int {
    header_of(b).num_containers as int
}

/// Start of the data section.
pub open spec fn std_base(b: Seq<u8>) -> int {
    data_off_spec(std_n(b), header_of(b).has_bitmap)
}

/// Index entry of container `i`.
pub open spec fn std_entry(b: Seq<u8>, i: int) -> IndexEntry {
    entry_at(b, std_n(b), i)
}

/// Payload offset of container `i`.
pub open spec fn std_start(b: Seq<u8>, i: int) -> int {
    std_base(b) + std_entry(b, i).data_offset
}

/// Container `i` is of a stored type and its payload is valid.
pub open spec fn std_payload_ok(b: Seq<u8>, i: int) -> bool {
    let e = std_entry(b, i);
    e.typ <= CT_RUN && payload_ok(b, std_start(b, i), e.typ, e.cardinality as int)
}

/// The values of container `i`.
pub open spec fn std_lows(b: Seq<u8>, i: int) -> Set<u16> {
    let e = std_entry(b, i);
    payload_set(b, std_start(b, i), e.typ, e.cardinality as int)
}

/// The containers as keyed blocks.
pub open spec fn std_blocks(b: Seq<u8>) -> Seq<Block> {
    Seq::new(std_n(b) as nat, |i: int| Block { key: std_entry(b, i).key, lows: std_lows(b, i) })
}

/// Sum of the first `k` cardinalities.
pub open spec fn card_sum(b: Seq<u8>, k: int) -> int
    decreases k,
{
    if k <= 0 {
        0
    } else {
        card_sum(b, k - 1) + std_entry(b, k - 1).cardinality
    }
}

/// Boundary that a payload of form `typ` starts on.
pub open spec fn form_align(typ: u8) -> int {
    if typ == CT_BITMAP {
        64
    } else {
        2
    }
}

/// The payload of container `i` starts on a boundary of its form.
pub open spec fn aligned_at(b: Seq<u8>, i: int) -> bool {
    std_start(b, i) % form_align(std_entry(b, i).typ) == 0
}

/// `b` is a well-formed standard bitmap.
pub open spec fn std_ok(b: Seq<u8>) -> bool {
    &&& header_ok(b)
    &&& 16 + 8 * std_n(b) <= b.len()
    &&& std_base(b) <= b.len()
    &&& keys_ascend(b, std_n(b))
    &&& forall|i: int| 0 <= i < std_n(b) ==> #[trigger] std_payload_ok(b, i)
    &&& forall|i: int| 0 <= i < std_n(b) ==> #[trigger] aligned_at(b, i)
    &&& card_sum(b, std_n(b)) == header_of(b).cardinality
}

proof fn lemma_card_sum(b: Seq<u8>, k: int)
    requires
        0 <= k <= std_n(b),
        forall|i: int| 0 <= i < k ==> #[trigger] std_payload_ok(b, i),
    ensures
        blocks_sum(std_blocks(b).take(k)) == card_sum(b, k),
    decreases k,
{
    let s = std_blocks(b).take(k);
    if k > 0 {
        lemma_card_sum(b, k - 1);
        assert(s.drop_last() =~= std_blocks(b).take(k - 1));
        assert(std_payload_ok(b, k - 1));
        let e = std_entry(b, k - 1);
        lemma_payload_len(b, std_start(b, k - 1), e.typ, e.cardinality as int);
    }
}

/// The containers of a well-formed bitmap are ordered, non-empty blocks, and the
/// header's cardinality is the number of values.
pub proof fn lemma_std(b: Seq<u8>)
    requires
        std_ok(b),
    ensures
        blocks_ok(std_blocks(b)),
        blocks_set(std_blocks(b)).finite(),
        blocks_set(std_blocks(b)).len() == header_of(b).cardinality,
        std_n(b) <= 65536,
        std_n(b) == 0 <==> header_of(b).cardinality == 0,
{
    let s = std_blocks(b);
    let n = std_n(b);
    assert forall|i: int, j: int| 0 <= i < j < s.len() implies (#[trigger] s[i]).key < (
    #[trigger] s[j]).key by {
        assert(key_at(b, i) < key_at(b, j));
    }
    assert forall|i: int| 0 <= i < s.len() implies (#[trigger] s[i]).lows.len() > 0 by {
        assert(std_payload_ok(b, i));
        let e = std_entry(b, i);
        lemma_payload_len(b, std_start(b, i), e.typ, e.cardinality as int);
    }
    lemma_card_sum(b, n);
    assert(s.take(n) =~= s);
    lemma_blocks_len(s);
    lemma_keys_bound(b, n);
    if n > 0 {
        lemma_card_sum_pos(b, n);
    }
}

proof fn lemma_card_sum_pos(b: Seq<u8>, k: int)
    requires
        0 <= k,
    ensures
        card_sum(b, k) >= 0,
        k > 0 ==> card_sum(b, k) > 0,
    decreases k,
{
    if k > 0 {
        lemma_card_sum_pos(b, k - 1);
    }
}

/// Strictly ascending 16-bit keys number at most 65536.
pub proof fn lemma_keys_bound(b: Seq<u8>, n: int)
    requires
        keys_ascend(b, n),
    ensures
        n <= 65536,
{
    if n > 0 {
        lemma_key_index(b, n, n - 1);
    }
}

proof fn lemma_key_index(b: Seq<u8>, n: int, i: int)
    requires
        keys_ascend(b, n),
        0 <= i < n,
    ensures
        i <= key_at(b, i),
    decreases i,
{
    if i > 0 {
        lemma_key_index(b, n, i - 1);
        assert(key_at(b, i - 1) < key_at(b, i));
    }
}

/// Bytes with a header for the blocks of `s`, an index of their keys, and a valid
/// payload for each, are a well-formed standard bitmap of those blocks.
pub proof fn lemma_std_from(b: Seq<u8>, s: Seq<Block>)
    requires
        header_ok(b),
        std_n(b) == s.len(),
        16 + 8 * s.len() <= b.len(),
        std_base(b) <= b.len(),
        blocks_ok(s),
        header_of(b).cardinality == blocks_sum(s),
        forall|j: int|
            0 <= j < s.len() ==> #[trigger] std_payload_ok(b, j) && std_entry(b, j).key == s[j].key
                && std_lows(b, j) == s[j].lows && aligned_at(b, j),
    ensures
        !inline_magic(b),
        std_ok(b),
        frozen_ok(b),
        std_blocks(b) == s,
{
    let n = s.len() as int;
    assert(b[0] == 90);
    assert forall|i: int, j: int| 0 <= i < j < n implies #[trigger] key_at(b, i)
        < #[trigger] key_at(b, j) by {
        assert(std_payload_ok(b, i) && std_payload_ok(b, j));
        assert(s[i].key < s[j].key);
    }
    assert forall|i: int| 0 <= i < n implies std_blocks(b)[i] == s[i] by {
        assert(std_payload_ok(b, i));
    }
    assert(std_blocks(b) =~= s);
    lemma_card_sum(b, n);
    assert(s.take(n) =~= s);
    assert forall|i: int| 0 <= i < n implies #[trigger] aligned_at(b, i) by {
        assert(std_payload_ok(b, i));
    }
}

/// Offsets on a boundary in a section on that boundary.
pub proof fn lemma_aligned(b: Seq<u8>, i: int)
    requires
        0 <= std_n(b),
        std_entry(b, i).typ == CT_BITMAP ==> header_of(b).has_bitmap,
        std_entry(b, i).data_offset as int % form_align(std_entry(b, i).typ) == 0,
    ensures
        aligned_at(b, i),
{
    crate::format::lemma_align_up(16 + 8 * std_n(b), 64);
    crate::format::lemma_align_up(16 + 8 * std_n(b), 8);
}

/// The header's flags tell which forms there are.
pub open spec fn flags_exact(b: Seq<u8>) -> bool {
    &&& header_of(b).has_runs <==> exists|i: int|
        0 <= i < std_n(b) && (#[trigger] std_entry(b, i)).typ == CT_RUN
    &&& header_of(b).has_bitmap <==> exists|i: int|
        0 <= i < std_n(b) && (#[trigger] std_entry(b, i)).typ == CT_BITMAP
}

/// Bitmap payloads start at multiples of 64 from the start of the buffer.
pub open spec fn bitmaps_aligned(b: Seq<u8>) -> bool {
    forall|i: int|
        0 <= i < std_n(b) && (#[trigger] std_entry(b, i)).typ == CT_BITMAP ==> std_start(b, i) % 64
            == 0
}

/// What is written in the standard format, beyond what is needed to read it.
pub open spec fn tidy(b: Seq<u8>) -> bool {
    flags_exact(b) && bitmaps_aligned(b)
}

/// Stored bytes of container `i`.
pub open spec fn std_size(b: Seq<u8>, i: int) -> int {
    let e = std_entry(b, i);
    payload_size(b, std_start(b, i), e.typ, e.cardinality as int)
}

/// Where the payloads before container `i` end in the data section.
pub open spec fn std_end(b: Seq<u8>, i: int) -> int {
    if i <= 0 {
        0
    } else {
        std_entry(b, i - 1).data_offset + std_size(b, i - 1)
    }
}

/// The payload of container `i` starts on the first boundary behind the one before it, with
/// zeros in between.
pub open spec fn behind(b: Seq<u8>, i: int) -> bool {
    &&& std_entry(b, i).data_offset == align_up_spec(
        std_end(b, i),
        form_align(std_entry(b, i).typ),
    )
    &&& forall|k: int| std_base(b) + std_end(b, i) <= k < std_start(b, i) ==> #[trigger] b[k] == 0
}

/// Nothing but the containers: unused header bits and the bytes between index and payloads
/// are zero, the payloads lie behind each other, and the last one ends the buffer.
pub open spec fn snug(b: Seq<u8>) -> bool {
    &&& u16_at(b, 6) == flag_word(header_of(b))
    &&& u32_at(b, 12) == card_word(header_of(b))
    &&& forall|k: int| 16 + 8 * std_n(b) <= k < std_base(b) ==> #[trigger] b[k] == 0
    &&& forall|i: int| 0 <= i < std_n(b) ==> #[trigger] behind(b, i)
    &&& b.len() == std_base(b) + std_end(b, std_n(b))
}

/// No payload takes more than a bitmap.
pub open spec fn slim(b: Seq<u8>) -> bool {
    forall|i: int| 0 <= i < std_n(b) ==> #[trigger] std_size(b, i) <= BITMAP_BYTES
}

/// Every block that is not stored as runs takes the smaller of the other two forms.
pub open spec fn compact(b: Seq<u8>) -> bool {
    forall|i: int|
        0 <= i < std_n(b) && (#[trigger] std_entry(b, i)).typ != CT_RUN ==> (std_entry(b, i).typ
            == CT_ARRAY <==> std_lows(b, i).len() <= ARRAY_MAX_SIZE)
}

// --- inline encoding -------------------------------------------------------------

/// The packed values of an inline bitmap.
pub open spec fn inline_vals(b: Seq<u8>) -> Seq<u32> {
    packed_at(b, 4, u16_at(b, 2) as int)
}

/// `b` is a well-formed inline bitmap.
pub open spec fn inline_ok(b: Seq<u8>) -> bool {
    &&& inline_magic(b)
    &&& b.len() >= 4
    &&& b.len() >= 4 + 4 * u16_at(b, 2)
    &&& asc32(inline_vals(b))
}

// --- either encoding -------------------------------------------------------------

/// `b` is a well-formed frozen bitmap.
pub open spec fn frozen_ok(b: Seq<u8>) -> bool {
    if inline_magic(b) {
        inline_ok(b)
    } else {
        std_ok(b)
    }
}

/// The values of a frozen bitmap.
pub open spec fn frozen_set(b: Seq<u8>) -> Set<u32> {
    if inline_magic(b) {
        inline_vals(b).to_set()
    } else {
        blocks_set(std_blocks(b))
    }
}

/// The stored cardinality of a frozen bitmap.
pub open spec fn frozen_card(b: Seq<u8>) -> int {
    if inline_magic(b) {
        u16_at(b, 2) as int
    } else {
        header_of(b).cardinality as int
    }
}

/// The stored cardinality is the number of values.
pub proof fn lemma_frozen_card(b: Seq<u8>)
    requires
        frozen_ok(b),
    ensures
        frozen_set(b).finite(),
        frozen_set(b).len() == frozen_card(b),
{
    if inline_magic(b) {
        lemma_asc32_len(inline_vals(b));
    } else {
        lemma_std(b);
    }
}

} // verus!
