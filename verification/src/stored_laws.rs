//! What a builder writes: which encoding, which form for each block, where each payload lies,
//! and zeros everywhere else.
use vstd::prelude::*;

use crate::builder::{
    any_form, best_cost, best_form, block_off, data_len, lemma_canonical_tidy, lemma_data_len,
    lemma_data_len_mono, placed, run_starts, standard_size,
};
use crate::canon::{
    blocks_of, canonical, finished, finished_as, finished_standard, header_for, in_payload,
    inline_exact, inline_wins, law_blocks_unique,
};
use crate::format::{
    card_word, data_off_spec, flag_word, header_of, inline_magic, inline_size_spec, lemma_align_up, u16_at, u32_at,
    CT_ARRAY, CT_BITMAP, CT_RUN,
};
use crate::frozen::{
    behind, frozen_ok, frozen_set, snug, std_base, std_blocks, std_end,
    std_entry, std_lows, std_n, std_size, std_start, tidy,
};
use crate::laws::{law_read_back, lemma_block_costs, lemma_canonical_reads};
use crate::model::{
    asc32, blocks_ok, blocks_set, lemma_asc32_len, lemma_blocks_len, lemma_set16, lemma_set32, Block,
};

verus! {

/// The form of a block of `n` values in `r` maximal runs: runs where they take no more than
/// the values listed, 2047 runs at most; else the values listed up to 4096 of them; else a
/// bitmap. It takes two bytes for each value, two and four for each run, or 8192.
pub proof fn law_best_form(s: Set<u16>)
    ensures
        ({
            let (n, r) = (s.len() as int, run_starts(s).len() as int);
            &&& best_form(s) == CT_RUN <==> 2 + 4 * r <= 2 * n && r <= 2047
            &&& best_form(s) == CT_ARRAY <==> 2 + 4 * r > 2 * n && n <= 4096
            &&& best_form(s) == CT_BITMAP <==> n > 4096 && r > 2047
            &&& best_form(s) == CT_RUN ==> best_cost(s) == 2 + 4 * r
            &&& best_form(s) == CT_ARRAY ==> best_cost(s) == 2 * n
            &&& best_form(s) == CT_BITMAP ==> best_cost(s) == 8192
        }),
{
}

/// A builder takes the inline encoding exactly where it is the smaller one: of up to 65535
/// values, four bytes for each and four more, rounded up to a multiple of eight.
pub proof fn law_inline(b: Seq<u8>, set: Set<u32>, s: Seq<Block>)
    requires
        finished(b, set),
        blocks_ok(s),
        blocks_set(s) == set,
    ensures
        ({
            let size = (4 + 4 * set.len() as int + 7) / 8 * 8;
            &&& inline_magic(b) <==> set.len() <= 65535 && size < standard_size(s)
            &&& inline_magic(b) ==> b.len() == size && forall|k: int|
                4 + 4 * set.len() <= k < b.len() ==> #[trigger] b[k] == 0
            &&& !inline_magic(b) ==> b.len() == standard_size(s)
        }),
{
    let t = choose|t: Seq<Block>| #[trigger] blocks_of(t, set) && finished_as(b, t, set);
    law_blocks_unique(s, t);
    lemma_blocks_len(s);
    lemma_inline_size(set.len() as int);
    if inline_wins(s) {
        let vals = choose|vals: Seq<u32>|
            asc32(vals) && vals.to_set() == set && #[trigger] inline_exact(b, vals);
        lemma_asc32_len(vals);
        assert(vals.len() == set.len());
        assert(inline_magic(b));
    } else {
        assert(canonical(b, s));
        lemma_canonical_reads(b, s);
        assert(!inline_magic(b));
    }
}

proof fn lemma_inline_size(n: int)
    requires
        n >= 0,
    ensures
        inline_size_spec(n) == (4 + 4 * n + 7) / 8 * 8,
{
}

/// In the standard format every block is stored in its smallest form.
pub proof fn law_forms(b: Seq<u8>, set: Set<u32>, i: int)
    requires
        finished_standard(b, set) || finished(b, set) && !inline_magic(b),
        0 <= i < std_n(b),
    ensures
        std_entry(b, i).typ == best_form(std_lows(b, i)),
        std_size(b, i) == best_cost(std_lows(b, i)),
{
    let s = standard_blocks(b, set);
    lemma_standard(b, set);
    lemma_canonical_reads(b, s);
    lemma_in_place(b, s, i);
    assert(std_blocks(b)[i] == s[i]);
}

/// The blocks that `b` was written from.
spec fn standard_blocks(b: Seq<u8>, set: Set<u32>) -> Seq<Block> {
    choose|s: Seq<Block>| #[trigger] blocks_of(s, set) && canonical(b, s)
}

proof fn lemma_standard(b: Seq<u8>, set: Set<u32>)
    requires
        finished_standard(b, set) || finished(b, set) && !inline_magic(b),
    ensures
        blocks_of(standard_blocks(b, set), set),
        canonical(b, standard_blocks(b, set)),
{
    if !finished_standard(b, set) {
        let s = choose|s: Seq<Block>| #[trigger] blocks_of(s, set) && finished_as(b, s, set);
        if inline_wins(s) {
            let vals = choose|vals: Seq<u32>|
                asc32(vals) && vals.to_set() == set && #[trigger] inline_exact(b, vals);
            assert(inline_magic(b));
        }
        assert(blocks_of(s, set) && canonical(b, s));
    }
}

/// Where block `i` lies.
proof fn lemma_in_place(b: Seq<u8>, s: Seq<Block>, i: int)
    requires
        blocks_ok(s),
        canonical(b, s),
        0 <= i < s.len(),
    ensures
        std_n(b) == s.len(),
        std_base(b) == data_off_spec(s.len() as int, any_form(s, CT_BITMAP)),
        std_entry(b, i).typ == best_form(s[i].lows),
        std_entry(b, i).data_offset == block_off(s, i),
        std_size(b, i) == best_cost(s[i].lows),
        std_start(b, i) == std_base(b) + block_off(s, i),
{
    let n = s.len() as int;
    let base = data_off_spec(n, any_form(s, CT_BITMAP));
    lemma_block_costs(s);
    lemma_blocks_len(s);
    lemma_set32(blocks_set(s));
    assert(header_of(b) == header_for(s));
    assert(placed(b, s, base, i));
    lemma_set16(s[i].lows);
    lemma_data_len(s, i);
    lemma_align_up(data_len(s, i), 64);
    lemma_align_up(data_len(s, i), 2);
}

proof fn lemma_ends(b: Seq<u8>, s: Seq<Block>, i: int)
    requires
        blocks_ok(s),
        canonical(b, s),
        0 <= i <= s.len(),
    ensures
        std_end(b, i) == data_len(s, i),
{
    if i > 0 {
        lemma_in_place(b, s, i - 1);
    }
}

/// A byte between the payloads belongs to none.
proof fn lemma_between(s: Seq<Block>, base: int, i: int, k: int)
    requires
        blocks_ok(s),
        0 <= i < s.len(),
        data_len(s, i) <= k - base < block_off(s, i),
    ensures
        !in_payload(s, base, s.len() as int, k),
{
    lemma_block_costs(s);
    if in_payload(s, base, s.len() as int, k) {
        let j = choose|j: int|
            0 <= j < s.len() && #[trigger] block_off(s, j) <= k - base < block_off(s, j) + best_cost(
                s[j].lows,
            );
        if j < i {
            lemma_data_len_mono(s, j + 1, i);
        } else if j > i {
            lemma_data_len_mono(s, i + 1, j);
            lemma_data_len(s, j);
            lemma_align_up(data_len(s, j), 64);
            lemma_align_up(data_len(s, j), 2);
            assert(best_cost(s[i].lows) > 0);
        }
    }
}

proof fn lemma_flags(b: Seq<u8>, s: Seq<Block>)
    requires
        blocks_ok(s),
        canonical(b, s),
    ensures
        tidy(b),
{
    lemma_block_costs(s);
    lemma_blocks_len(s);
    lemma_set32(blocks_set(s));
    assert(header_of(b) == header_for(s));
    lemma_canonical_tidy(b, s);
}

proof fn lemma_behind(b: Seq<u8>, s: Seq<Block>, i: int)
    requires
        blocks_ok(s),
        canonical(b, s),
        0 <= i < s.len(),
    ensures
        behind(b, i),
{
    let n = s.len() as int;
    lemma_block_costs(s);
    lemma_in_place(b, s, i);
    lemma_ends(b, s, i);
    let base = std_base(b);
    lemma_align_up(16 + 8 * n, 64);
    lemma_align_up(16 + 8 * n, 8);
    lemma_data_len(s, i);
    lemma_data_len_mono(s, i + 1, n);
    assert(best_cost(s[i].lows) > 0);
    assert forall|k: int| base + std_end(b, i) <= k < std_start(b, i) implies #[trigger] b[k] == 0 by {
        lemma_between(s, base, i, k);
    }
}

/// What a builder writes in the standard format is laid out without slack: the flags tell
/// which forms there are, bitmaps lie on boundaries of 64, each payload on the first boundary
/// behind the one before, and all bytes in between are zero.
pub proof fn law_snug(b: Seq<u8>, set: Set<u32>)
    requires
        finished_standard(b, set) || finished(b, set) && !inline_magic(b),
    ensures
        frozen_ok(b),
        frozen_set(b) == set,
        tidy(b),
        snug(b),
{
    law_read_back(b, set);
    lemma_standard(b, set);
    let s = standard_blocks(b, set);
    let n = s.len() as int;
    lemma_canonical_reads(b, s);
    assert(std_blocks(b).len() == n);
    lemma_flags(b, s);
    assert forall|i: int| 0 <= i < n implies #[trigger] behind(b, i) by {
        lemma_behind(b, s, i);
    }
    lemma_gap(b, s);
}

/// The header's words, the bytes before the payloads, and the length.
proof fn lemma_gap(b: Seq<u8>, s: Seq<Block>)
    requires
        blocks_ok(s),
        canonical(b, s),
    ensures
        u16_at(b, 6) == flag_word(header_of(b)),
        u32_at(b, 12) == card_word(header_of(b)),
        std_n(b) == s.len(),
        forall|k: int| 16 + 8 * s.len() <= k < std_base(b) ==> #[trigger] b[k] == 0,
        b.len() == std_base(b) + std_end(b, s.len() as int),
{
    let n = s.len() as int;
    lemma_block_costs(s);
    lemma_blocks_len(s);
    lemma_set32(blocks_set(s));
    lemma_align_up(16 + 8 * n, 64);
    lemma_align_up(16 + 8 * n, 8);
    lemma_data_len(s, n);
    assert(header_of(b) == header_for(s));
    lemma_ends(b, s, n);
    assert forall|k: int| 16 + 8 * n <= k < std_base(b) implies #[trigger] b[k] == 0 by {
        lemma_before(s, std_base(b), k);
    }
}

/// A byte before the payloads belongs to none.
proof fn lemma_before(s: Seq<Block>, base: int, k: int)
    requires
        blocks_ok(s),
        k < base,
    ensures
        !in_payload(s, base, s.len() as int, k),
{
    lemma_block_costs(s);
    if in_payload(s, base, s.len() as int, k) {
        let j = choose|j: int|
            0 <= j < s.len() && #[trigger] block_off(s, j) <= k - base < block_off(s, j) + best_cost(
                s[j].lows,
            );
        lemma_data_len(s, j);
        lemma_align_up(data_len(s, j), 64);
        lemma_align_up(data_len(s, j), 2);
    }
}

} // verus!
