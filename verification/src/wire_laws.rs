//! The wire format, byte by byte: what a reader of the bytes alone finds in a well-formed
//! frozen bitmap.
use vstd::prelude::*;

use crate::container::{
    array_at, lemma_payload_len, lemma_payload_same, payload_ok, payload_set, run_at, runs_at, runs_ok,
    runs_set, words_at,
};
use crate::format::{header_of, inline_magic, key_at, keys_ascend, u16_at, u32_at, u64_at};
use crate::frozen::{
    aligned_at, card_sum, frozen_ok, frozen_set, inline_vals, lemma_frozen_card, lemma_std, std_blocks,
    std_entry, std_lows, std_n, std_payload_ok, std_start,
};
use crate::model::{asc16, asc32, lemma_under_block, under};
use crate::words::{bits_set, wbit};

verus! {

/// Two bytes, the low one first.
#[verifier::opaque]
pub open spec fn le16(b: Seq<u8>, o: int) -> int {
    b[o] + 256 * b[o + 1]
}

/// Four bytes, the low one first.
#[verifier::opaque]
pub open spec fn le32(b: Seq<u8>, o: int) -> int {
    b[o] + 256 * b[o + 1] + 65536 * b[o + 2] + 16777216 * b[o + 3]
}

/// Words are read as they are stored.
proof fn lemma_words(b: Seq<u8>)
    ensures
        forall|o: int| #[trigger] u16_at(b, o) == le16(b, o),
        forall|o: int| #[trigger] le16(b, o) == u16_at(b, o),
        forall|o: int| #[trigger] u32_at(b, o) == le32(b, o),
        forall|o: int| #[trigger] le32(b, o) == u32_at(b, o),
{
    reveal(le16);
    reveal(le32);
}

/// The standard header: sixteen bytes, opening with the magic and version 3. The word at 8
/// is the number of containers, and the word at 12 the number of values, unless the second
/// flag says that the bitmap is full.
pub proof fn law_wire_header(b: Seq<u8>)
    requires
        frozen_ok(b),
        !inline_magic(b),
    ensures
        b.len() >= 16 + 8 * le32(b, 8),
        b[0] == 0x5A && b[1] == 0x4F && b[2] == 0x52 && b[3] == 0x46,
        le16(b, 4) == 3,
        le32(b, 8) == std_blocks(b).len(),
        frozen_set(b).len() == (if (le16(b, 6) / 2) % 2 == 1 {
            0x1_0000_0000
        } else {
            le32(b, 12)
        }),
{
    lemma_std(b);
    lemma_frozen_card(b);
    lemma_words(b);
    assert(le32(b, 0) == 0x46524F5A);
    reveal(le32);
}

/// Where the payload of container `i` of `n` starts: past the index, on a boundary of 64 if
/// the third flag says that there is a bitmap and else of 8, and then its offset.
pub open spec fn payload_start(b: Seq<u8>, n: int, i: int) -> int {
    let base: int = if (le16(b, 6) / 4) % 2 == 1 {
        (16 + 8 * n + 63) / 64 * 64
    } else {
        16 + 8 * n
    };
    base + le32(b, 16 + 4 * n + 4 * i) % 0x4000_0000
}

/// The index, three arrays one after the other: two bytes of key for each container, keys
/// ascending; two bytes of cardinality, less one; and a word with the type in its upper two
/// bits and the payload's offset in the rest. The type is an array, a bitmap or runs.
pub proof fn law_wire_index(b: Seq<u8>, i: int)
    requires
        frozen_ok(b),
        !inline_magic(b),
        0 <= i < le32(b, 8),
    ensures
        ({
            let n = le32(b, 8);
            let key = le16(b, 16 + 2 * i) as u16;
            &&& under(frozen_set(b), key).len() == le16(b, 16 + 2 * n + 2 * i) + 1
            &&& le32(b, 16 + 4 * n + 4 * i) / 0x4000_0000 <= 2
            &&& i > 0 ==> le16(b, 16 + 2 * (i - 1)) < le16(b, 16 + 2 * i)
            &&& std_start(b, i) == payload_start(b, n, i)
        }),
{
    lemma_std(b);
    lemma_words(b);
    assert(std_payload_ok(b, i));
    let e = std_entry(b, i);
    lemma_payload_len(b, std_start(b, i), e.typ, e.cardinality as int);
    lemma_under_block(std_blocks(b), i);
    if i > 0 {
        assert(key_at(b, i - 1) < key_at(b, i));
    }
}

/// What the index says of container `i`.
proof fn lemma_entry(b: Seq<u8>, i: int)
    requires
        frozen_ok(b),
        !inline_magic(b),
        0 <= i < le32(b, 8),
    ensures
        ({
            let n = le32(b, 8);
            let (key, at) = (le16(b, 16 + 2 * i) as u16, payload_start(b, n, i));
            let typ = le32(b, 16 + 4 * n + 4 * i) / 0x4000_0000;
            let card = le16(b, 16 + 2 * n + 2 * i) + 1;
            &&& under(frozen_set(b), key) == payload_set(b, at, typ as u8, card)
            &&& typ <= 2
            &&& payload_ok(b, at, typ as u8, card)
            &&& typ == 1 ==> at % 64 == 0
        }),
{
    law_wire_index(b, i);
    lemma_words(b);
    lemma_std(b);
    lemma_under_block(std_blocks(b), i);
    assert(std_payload_ok(b, i));
    assert(aligned_at(b, i));
}

/// Half `j` of a list of halves at `at` is `l`.
pub open spec fn half_is(b: Seq<u8>, at: int, j: int, l: u16) -> bool {
    le16(b, at + 2 * j) == l
}

/// An array payload is its values, two bytes each.
pub proof fn law_wire_array(b: Seq<u8>, i: int, l: u16)
    requires
        frozen_ok(b),
        !inline_magic(b),
        0 <= i < le32(b, 8),
        le32(b, 16 + 4 * le32(b, 8) + 4 * i) / 0x4000_0000 == 0,
    ensures
        ({
            let n = le32(b, 8);
            let (key, at) = (le16(b, 16 + 2 * i) as u16, payload_start(b, n, i));
            under(frozen_set(b), key).contains(l) <==> exists|j: int|
                0 <= j <= le16(b, 16 + 2 * n + 2 * i) && #[trigger] half_is(b, at, j, l)
        }),
{
    lemma_entry(b, i);
    let n = le32(b, 8);
    let (at, card) = (payload_start(b, n, i), le16(b, 16 + 2 * n + 2 * i) + 1);
    let a = array_at(b, at, card);
    assert forall|j: int| 0 <= j < a.len() implies (#[trigger] a[j] == l <==> half_is(b, at, j, l)) by {
        reveal(le16);
        assert(a[j] == u16_at(b, at + 2 * j));
    }
    if a.contains(l) {
        let j = choose|j: int| 0 <= j < a.len() && a[j] == l;
        assert(half_is(b, at, j, l));
    }
    if exists|j: int| 0 <= j <= le16(b, 16 + 2 * n + 2 * i) && #[trigger] half_is(b, at, j, l) {
        let j = choose|j: int|
            0 <= j <= le16(b, 16 + 2 * n + 2 * i) && #[trigger] half_is(b, at, j, l);
        assert(a[j] == l);
    }
}

/// A bitmap payload is 1024 words of eight bytes, a bit for each value from the lowest up,
/// and starts on a boundary of 64.
pub proof fn law_wire_bitmap(b: Seq<u8>, i: int, l: u16)
    requires
        frozen_ok(b),
        !inline_magic(b),
        0 <= i < le32(b, 8),
        le32(b, 16 + 4 * le32(b, 8) + 4 * i) / 0x4000_0000 == 1,
    ensures
        ({
            let n = le32(b, 8);
            let (key, at) = (le16(b, 16 + 2 * i) as u16, payload_start(b, n, i));
            let o = at + 8 * (l as int / 64);
            let word = (le32(b, o) + 0x1_0000_0000 * le32(b, o + 4)) as u64;
            &&& at % 64 == 0
            &&& at + 8192 <= b.len()
            &&& under(frozen_set(b), key).contains(l) <==> wbit(word, l as int % 64)
        }),
{
    lemma_entry(b, i);
    lemma_words(b);
    let n = le32(b, 8);
    let at = payload_start(b, n, i);
    assert(words_at(b, at)[l as int / 64] == u64_at(b, at + 8 * (l as int / 64)));
}

/// Run `j` of a list of runs at `at` holds `l`.
pub open spec fn run_holds(b: Seq<u8>, at: int, j: int, l: u16) -> bool {
    le16(b, at + 4 * j) <= l <= le16(b, at + 4 * j) + le16(b, at + 4 * j + 2)
}

/// A run payload is two bytes of count, then two bytes of first value and two of length less
/// one for each run.
pub proof fn law_wire_runs(b: Seq<u8>, i: int, l: u16)
    requires
        frozen_ok(b),
        !inline_magic(b),
        0 <= i < le32(b, 8),
        le32(b, 16 + 4 * le32(b, 8) + 4 * i) / 0x4000_0000 == 2,
    ensures
        ({
            let n = le32(b, 8);
            let (key, at) = (le16(b, 16 + 2 * i) as u16, payload_start(b, n, i));
            under(frozen_set(b), key).contains(l) <==> exists|j: int|
                0 <= j < le16(b, at) && #[trigger] run_holds(b, at + 2, j, l)
        }),
{
    lemma_entry(b, i);
    let n = le32(b, 8);
    let at = payload_start(b, n, i);
    let rs = runs_at(b, at);
    assert(rs.len() == le16(b, at)) by {
        reveal(le16);
    }
    assert forall|j: int| 0 <= j < rs.len() implies ((#[trigger] rs[j]).has(l) <==> run_holds(
        b,
        at + 2,
        j,
        l,
    )) by {
        lemma_run(b, at, j, l);
    }
    if under(frozen_set(b), le16(b, 16 + 2 * i) as u16).contains(l) {
        let j = choose|j: int| 0 <= j < rs.len() && (#[trigger] rs[j]).has(l);
        assert(run_holds(b, at + 2, j, l));
    }
    if exists|j: int| 0 <= j < le16(b, at) && #[trigger] run_holds(b, at + 2, j, l) {
        let j = choose|j: int| 0 <= j < le16(b, at) && #[trigger] run_holds(b, at + 2, j, l);
        assert(rs[j].has(l));
    }
}

proof fn lemma_run(b: Seq<u8>, at: int, j: int, l: u16)
    requires
        0 <= j < runs_at(b, at).len(),
    ensures
        runs_at(b, at)[j].has(l) <==> run_holds(b, at + 2, j, l),
{
    reveal(le16);
    assert(runs_at(b, at)[j] == run_at(b, at + 2 + 4 * j));
}

/// Word `j` of a list of words at `at` is `v`.
pub open spec fn word_is(b: Seq<u8>, at: int, j: int, v: u32) -> bool {
    le32(b, at + 4 * j) == v
}

/// The inline encoding: its magic, two bytes of count, and that many words, ascending.
pub proof fn law_wire_inline(b: Seq<u8>, v: u32)
    requires
        frozen_ok(b),
        inline_magic(b),
    ensures
        b[0] == 70 && b[1] == 73,
        b.len() >= 4 + 4 * le16(b, 2),
        frozen_set(b).len() == le16(b, 2),
        frozen_set(b).contains(v) <==> exists|j: int|
            0 <= j < le16(b, 2) && #[trigger] word_is(b, 4, j, v),
{
    lemma_frozen_card(b);
    lemma_words(b);
    let a = inline_vals(b);
    assert(a.len() == le16(b, 2));
    assert forall|j: int| 0 <= j < a.len() implies (#[trigger] a[j] == v <==> word_is(b, 4, j, v)) by {
        assert(a[j] == u32_at(b, 4 + 4 * j));
    }
    if a.contains(v) {
        let j = choose|j: int| 0 <= j < a.len() && a[j] == v;
        assert(word_is(b, 4, j, v));
    }
    if exists|j: int| 0 <= j < le16(b, 2) && #[trigger] word_is(b, 4, j, v) {
        let j = choose|j: int| 0 <= j < le16(b, 2) && #[trigger] word_is(b, 4, j, v);
        assert(a[j] == v);
    }
}

// --- what is accepted ---------------------------------------------------------------------

/// Half `j` of a list of halves at `at`.
pub open spec fn half(b: Seq<u8>, at: int, j: int) -> int {
    le16(b, at + 2 * j)
}

/// Word `j` of a list of words at `at`.
pub open spec fn word(b: Seq<u8>, at: int, j: int) -> int {
    le32(b, at + 4 * j)
}

/// The first of run `j` of a list of runs at `at`.
pub open spec fn first_of(b: Seq<u8>, at: int, j: int) -> int {
    le16(b, at + 4 * j)
}

/// The last of run `j` of a list of runs at `at`.
pub open spec fn last_of(b: Seq<u8>, at: int, j: int) -> int {
    le16(b, at + 4 * j) + le16(b, at + 4 * j + 2)
}

/// The values of a list of `n` runs at `at`.
pub open spec fn run_values(b: Seq<u8>, at: int, n: int) -> Set<u16> {
    Set::new(|l: u16| exists|j: int| 0 <= j < n && #[trigger] run_holds(b, at, j, l))
}

/// The bytes at `at` are an array of `card` values: all there, on a boundary of two, and
/// ascending.
pub open spec fn array_fits(b: Seq<u8>, at: int, card: int) -> bool {
    &&& at % 2 == 0
    &&& at + 2 * card <= b.len()
    &&& forall|i: int, j: int|
        0 <= i < j < card ==> #[trigger] half(b, at, i) < #[trigger] half(b, at, j)
}

/// The bytes at `at` are runs of `card` values: one to 2047 runs, all there, on a boundary of
/// two, none past the last value, and each behind the one before.
pub open spec fn runs_fit(b: Seq<u8>, at: int, card: int) -> bool {
    let n = le16(b, at);
    &&& at % 2 == 0
    &&& at + 2 <= b.len()
    &&& 1 <= n <= 2047
    &&& at + 2 + 4 * n <= b.len()
    &&& forall|j: int| 0 <= j < n ==> #[trigger] last_of(b, at + 2, j) <= 65535
    &&& forall|i: int, j: int|
        0 <= i < j < n ==> #[trigger] last_of(b, at + 2, i) < #[trigger] first_of(b, at + 2, j)
    &&& run_values(b, at + 2, n).len() == card
}

/// The bytes at `at` are a bitmap of `card` values: all there and on a boundary of 64.
pub open spec fn bitmap_fits(b: Seq<u8>, at: int, card: int) -> bool {
    &&& at % 64 == 0
    &&& at + 8192 <= b.len()
    &&& bits_set(words_at(b, at)).len() == card
}

/// Container `i` of `n` is one of the three types, and its payload fits.
pub open spec fn container_fits(b: Seq<u8>, n: int, i: int) -> bool {
    let typ = le32(b, 16 + 4 * n + 4 * i) / 0x4000_0000;
    let (at, card) = (payload_start(b, n, i), le16(b, 16 + 2 * n + 2 * i) + 1);
    if typ == 0 {
        array_fits(b, at, card)
    } else if typ == 1 {
        bitmap_fits(b, at, card)
    } else {
        typ == 2 && runs_fit(b, at, card)
    }
}

/// Values of the first `k` of `n` containers.
pub open spec fn cards_to(b: Seq<u8>, n: int, k: int) -> int
    decreases k,
{
    if k <= 0 {
        0
    } else {
        cards_to(b, n, k - 1) + le16(b, 16 + 2 * n + 2 * (k - 1)) + 1
    }
}

/// Bytes are accepted as a standard bitmap exactly where they open with the magic and version
/// 3, the index is all there with its keys ascending, each container fits, and their values
/// add up to those of the header. Nothing else is asked of them: neither the other flags, nor
/// where payloads lie, nor what follows them.
pub proof fn law_wire_valid(b: Seq<u8>)
    requires
        !inline_magic(b),
    ensures
        frozen_ok(b) <==> {
            let n = le32(b, 8);
            &&& b.len() >= 16 + 8 * n
            &&& b[0] == 0x5A && b[1] == 0x4F && b[2] == 0x52 && b[3] == 0x46
            &&& le16(b, 4) == 3
            &&& (le16(b, 6) / 4) % 2 == 1 ==> b.len() >= (16 + 8 * n + 63) / 64 * 64
            &&& forall|i: int, j: int|
                0 <= i < j < n ==> #[trigger] half(b, 16, i) < #[trigger] half(b, 16, j)
            &&& forall|i: int| 0 <= i < n ==> #[trigger] container_fits(b, n, i)
            &&& cards_to(b, n, n) == (if (le16(b, 6) / 2) % 2 == 1 {
                0x1_0000_0000
            } else {
                le32(b, 12)
            })
        },
{
    lemma_words(b);
    let n = le32(b, 8);
    assert(n == std_n(b) && n >= 0);
    assert(le32(b, 0) == 0x46524F5A <==> b[0] == 0x5A && b[1] == 0x4F && b[2] == 0x52 && b[3]
        == 0x46) by {
        reveal(le32);
    }
    lemma_cards(b, n, n);
    assert forall|i: int| 0 <= i < n implies (#[trigger] container_fits(b, n, i) <==> std_payload_ok(b, i)
        && aligned_at(b, i)) by {
        lemma_container(b, n, i);
    }
    assert forall|i: int| 0 <= i < n implies #[trigger] half(b, 16, i) == key_at(b, i) by {
    }
    if keys_ascend(b, n) {
        assert forall|i: int, j: int| 0 <= i < j < n implies #[trigger] half(b, 16, i) < #[trigger] half(
            b,
            16,
            j,
        ) by {
            assert(key_at(b, i) < key_at(b, j));
        }
    }
    if forall|i: int, j: int|
        0 <= i < j < n ==> #[trigger] half(b, 16, i) < #[trigger] half(b, 16, j) {
        assert forall|i: int, j: int| 0 <= i < j < n implies #[trigger] key_at(b, i)
            < #[trigger] key_at(b, j) by {
            assert(half(b, 16, i) < half(b, 16, j));
        }
    }
    if frozen_ok(b) {
        assert forall|i: int| 0 <= i < n implies #[trigger] container_fits(b, n, i) by {
            assert(std_payload_ok(b, i) && aligned_at(b, i));
        }
    }
    if forall|i: int| 0 <= i < n ==> #[trigger] container_fits(b, n, i) {
        assert forall|i: int| 0 <= i < n implies #[trigger] std_payload_ok(b, i) by {
            assert(container_fits(b, n, i));
        }
        assert forall|i: int| 0 <= i < n implies #[trigger] aligned_at(b, i) by {
            assert(container_fits(b, n, i));
        }
    }
}

proof fn lemma_cards(b: Seq<u8>, n: int, k: int)
    requires
        n == le32(b, 8),
        0 <= k,
    ensures
        cards_to(b, n, k) == card_sum(b, k),
    decreases k,
{
    lemma_words(b);
    if k > 0 {
        lemma_cards(b, n, k - 1);
    }
}

proof fn lemma_container(b: Seq<u8>, n: int, i: int)
    requires
        n == le32(b, 8),
        0 <= i < n,
    ensures
        container_fits(b, n, i) <==> std_payload_ok(b, i) && aligned_at(b, i),
{
    lemma_words(b);
    let e = std_entry(b, i);
    let (at, card) = (payload_start(b, n, i), le16(b, 16 + 2 * n + 2 * i) + 1);
    assert(e.cardinality == card);
    assert(at == std_start(b, i));
    assert(at >= 0);
    let to = le32(b, 16 + 4 * n + 4 * i);
    assert(e.typ == to / 0x4000_0000 && e.typ <= 3);
    if e.typ == 0 {
        let a = array_at(b, at, card);
        assert forall|j: int| 0 <= j < card implies #[trigger] half(b, at, j) == a[j] by {
        }
        if asc16(a) {
            assert forall|j: int, k: int| 0 <= j < k < card implies #[trigger] half(b, at, j)
                < #[trigger] half(b, at, k) by {
                assert(a[j] < a[k]);
            }
        }
        if array_fits(b, at, card) {
            assert forall|j: int, k: int| 0 <= j < k < a.len() implies a[j] < a[k] by {
                assert(half(b, at, j) < half(b, at, k));
            }
        }
    } else if e.typ == 2 {
        lemma_runs_fit(b, at, card);
    }
}

proof fn lemma_runs_fit(b: Seq<u8>, at: int, card: int)
    requires
        at >= 0,
        1 <= card <= 65536,
    ensures
        runs_fit(b, at, card) <==> at % 2 == 0 && payload_ok(b, at, 2, card),
{
    lemma_words(b);
    let (n, rs) = (le16(b, at), runs_at(b, at));
    assert(rs.len() == n);
    assert forall|j: int| 0 <= j < n implies (#[trigger] rs[j]).start == first_of(b, at + 2, j)
        && rs[j].start + rs[j].len == last_of(b, at + 2, j) by {
    }
    assert forall|l: u16| run_values(b, at + 2, n).contains(l) <==> runs_set(rs).contains(l) by {
        if run_values(b, at + 2, n).contains(l) {
            let j = choose|j: int| 0 <= j < n && #[trigger] run_holds(b, at + 2, j, l);
            lemma_run(b, at, j, l);
            assert(rs[j].has(l));
        }
        if runs_set(rs).contains(l) {
            let j = choose|j: int| 0 <= j < rs.len() && (#[trigger] rs[j]).has(l);
            lemma_run(b, at, j, l);
        }
    }
    assert(run_values(b, at + 2, n) =~= runs_set(rs));
    if runs_ok(rs) {
        assert forall|j: int| 0 <= j < n implies #[trigger] last_of(b, at + 2, j) <= 65535 by {
            assert(rs[j].wf());
        }
        assert forall|i: int, j: int| 0 <= i < j < n implies #[trigger] last_of(b, at + 2, i)
            < #[trigger] first_of(b, at + 2, j) by {
            assert(rs[i].last() < rs[j].start);
        }
    }
    if runs_fit(b, at, card) {
        assert forall|j: int| 0 <= j < rs.len() implies (#[trigger] rs[j]).wf() by {
            assert(last_of(b, at + 2, j) <= 65535);
        }
        assert forall|i: int, j: int| 0 <= i < j < rs.len() implies (#[trigger] rs[i]).last() < (
        #[trigger] rs[j]).start by {
            assert(last_of(b, at + 2, i) < first_of(b, at + 2, j));
        }
    }
}

/// Bytes that open with the inline magic are accepted exactly where the words that they count
/// are all there and ascend.
pub proof fn law_wire_valid_inline(b: Seq<u8>)
    requires
        inline_magic(b),
    ensures
        frozen_ok(b) <==> {
            &&& b.len() >= 4
            &&& b.len() >= 4 + 4 * le16(b, 2)
            &&& forall|i: int, j: int|
                0 <= i < j < le16(b, 2) ==> #[trigger] word(b, 4, i) < #[trigger] word(b, 4, j)
        },
{
    lemma_words(b);
    let a = inline_vals(b);
    assert(a.len() == le16(b, 2));
    assert forall|j: int| 0 <= j < a.len() implies #[trigger] word(b, 4, j) == a[j] by {
    }
    if asc32(a) {
        assert forall|i: int, j: int| 0 <= i < j < a.len() implies #[trigger] word(b, 4, i)
            < #[trigger] word(b, 4, j) by {
            assert(a[i] < a[j]);
        }
    }
    if forall|i: int, j: int|
        0 <= i < j < le16(b, 2) ==> #[trigger] word(b, 4, i) < #[trigger] word(b, 4, j) {
        assert forall|i: int, j: int| 0 <= i < j < a.len() implies a[i] < a[j] by {
            assert(word(b, 4, i) < word(b, 4, j));
        }
    }
}

/// What follows a frozen bitmap is never looked at: with any bytes behind it, it is still one,
/// of the same values.
pub proof fn law_wire_trailing(b: Seq<u8>, x: Seq<u8>)
    requires
        frozen_ok(b),
    ensures
        frozen_ok(b + x),
        frozen_set(b + x) == frozen_set(b),
{
    let c = b + x;
    assert(forall|k: int| 0 <= k < b.len() ==> #[trigger] c[k] == b[k]);
    if inline_magic(b) {
        assert(u16_at(c, 2) == u16_at(b, 2));
        assert(inline_vals(c) =~= inline_vals(b));
    } else {
        lemma_std(b);
        let n = std_n(b);
        assert(b[0] == 0x5A) by {
            law_wire_header(b);
        }
        assert(header_of(c) == header_of(b));
        assert forall|i: int| 0 <= i < n implies #[trigger] std_entry(c, i) == std_entry(b, i) && key_at(
            c,
            i,
        ) == key_at(b, i) by {
            lemma_entry_same(b, c, n, i);
        }
        assert forall|i: int| 0 <= i < n implies #[trigger] std_payload_ok(c, i) && aligned_at(c, i)
            && std_lows(c, i) == std_lows(b, i) by {
            assert(std_payload_ok(b, i) && aligned_at(b, i));
            assert(std_entry(c, i) == std_entry(b, i));
            let e = std_entry(b, i);
            lemma_payload_same(b, std_start(b, i), c, std_start(b, i), e.typ, e.cardinality as int);
        }
        assert forall|i: int| 0 <= i < n implies #[trigger] aligned_at(c, i) by {
            assert(std_payload_ok(c, i));
        }
        assert forall|i: int, j: int| 0 <= i < j < n implies #[trigger] key_at(c, i)
            < #[trigger] key_at(c, j) by {
            assert(std_entry(c, i) == std_entry(b, i) && std_entry(c, j) == std_entry(b, j));
            assert(key_at(b, i) < key_at(b, j));
        }
        lemma_sum_same(b, c, n);
        assert forall|i: int| 0 <= i < n implies #[trigger] std_blocks(c)[i] == std_blocks(b)[i] by {
            assert(std_payload_ok(c, i));
            assert(std_entry(c, i) == std_entry(b, i));
        }
        assert(std_blocks(c) =~= std_blocks(b));
    }
}

proof fn lemma_entry_same(b: Seq<u8>, c: Seq<u8>, n: int, i: int)
    requires
        std_n(b) == n == std_n(c),
        0 <= i < n,
        16 + 8 * n <= b.len() <= c.len(),
        forall|k: int| 0 <= k < b.len() ==> #[trigger] c[k] == b[k],
    ensures
        std_entry(c, i) == std_entry(b, i),
        key_at(c, i) == key_at(b, i),
{
    let (p, q, r) = (16 + 2 * i, 16 + 2 * n + 2 * i, 16 + 4 * n + 4 * i);
    assert(u16_at(c, p) == u16_at(b, p));
    assert(u16_at(c, q) == u16_at(b, q));
    assert(u32_at(c, r) == u32_at(b, r));
}

proof fn lemma_sum_same(b: Seq<u8>, c: Seq<u8>, k: int)
    requires
        forall|i: int| 0 <= i < k ==> #[trigger] std_entry(c, i) == std_entry(b, i),
    ensures
        card_sum(c, k) == card_sum(b, k),
    decreases k,
{
    if k > 0 {
        lemma_sum_same(b, c, k - 1);
        assert(std_entry(c, k - 1) == std_entry(b, k - 1));
    }
}

} // verus!
