//! The bytes of a finished bitmap are a function of its values.
//!
//! [`finished`] says byte for byte what the builder writes, and [`law_deterministic`] that
//! there is only one such byte string for a set. The bytes of a serialized op result are
//! those its values and the forms of its containers give ([`law_layout`]).
use vstd::prelude::*;

use crate::builder::{any_form, best_cost, best_form, block_off, placed, run_starts, standard_size};
use crate::container::{
    array_at, lemma_payload_len, payload_ok, payload_set, payload_size, runs_at, runs_ok, runs_set,
    words_at, Run,
};
use crate::format::{
    card_word, data_off_spec, entry_at, flag_word, header_of, inline_magic, inline_size_spec,
    lemma_align_up, u16_at, u32_at, u64_at, Header, CT_ARRAY, CT_BITMAP, CT_RUN, INLINE_MAX_COUNT,
    MAGIC, VERSION,
};
use crate::frozen::{
    behind, inline_vals, lemma_std, snug, std_base, std_blocks, std_end, std_entry, std_n, std_ok,
    std_lows, std_payload_ok, std_size, std_start, tidy,
};
use crate::model::{
    asc16, asc32, blocks_ok, blocks_set, blocks_sum, lemma_asc16_len, lemma_asc16_unique,
    lemma_asc32_unique, lemma_set16, lemma_under_block, lemma_under_none, under, Block,
};
use crate::run::apart;
use crate::words::{bits_set, lemma_wbit_lowest, wbit};

verus! {

// --- what is written --------------------------------------------------------------------

/// The header of the blocks of `s`.
pub open spec fn header_for(s: Seq<Block>) -> Header {
    Header {
        has_runs: any_form(s, CT_RUN),
        has_bitmap: any_form(s, CT_BITMAP),
        num_containers: s.len() as u32,
        cardinality: blocks_sum(s) as u64,
    }
}

/// The first bytes of `b` are the header `h`, to the last bit.
pub open spec fn header_bytes(b: Seq<u8>, h: Header) -> bool {
    &&& u32_at(b, 0) == MAGIC
    &&& u16_at(b, 4) == VERSION
    &&& u16_at(b, 6) == flag_word(h)
    &&& u32_at(b, 8) == h.num_containers
    &&& u32_at(b, 12) == card_word(h)
}

/// Byte `k` belongs to the payload of one of the first `m` blocks.
pub open spec fn in_payload(s: Seq<Block>, base: int, m: int, k: int) -> bool {
    exists|j: int|
        0 <= j < m && #[trigger] block_off(s, j) <= k - base < block_off(s, j) + best_cost(s[j].lows)
}

/// Past the index, the bytes outside the first `m` payloads are zero.
pub open spec fn clean(b: Seq<u8>, s: Seq<Block>, base: int, m: int) -> bool {
    forall|k: int|
        16 + 8 * s.len() <= k < b.len() && !in_payload(s, base, m, k) ==> #[trigger] b[k] == 0
}

/// `b` is the standard encoding of the blocks of `s`: the header, an index entry and the
/// smallest payload for each, and zeros between them.
pub open spec fn canonical(b: Seq<u8>, s: Seq<Block>) -> bool {
    let base = data_off_spec(s.len() as int, any_form(s, CT_BITMAP));
    &&& b.len() == standard_size(s)
    &&& header_bytes(b, header_for(s))
    &&& forall|j: int| 0 <= j < s.len() ==> #[trigger] placed(b, s, base, j)
    &&& clean(b, s, base, s.len() as int)
}

/// `b` is the inline encoding of `vals`: the magic, the count, the values, and zeros to the
/// next multiple of eight.
pub open spec fn inline_exact(b: Seq<u8>, vals: Seq<u32>) -> bool {
    &&& inline_magic(b)
    &&& b.len() == inline_size_spec(vals.len() as int)
    &&& u16_at(b, 2) == vals.len()
    &&& inline_vals(b) == vals
    &&& forall|k: int| 4 + 4 * vals.len() <= k < b.len() ==> #[trigger] b[k] == 0
}

/// The inline encoding is the smaller one.
pub open spec fn inline_wins(s: Seq<Block>) -> bool {
    &&& blocks_sum(s) <= INLINE_MAX_COUNT
    &&& inline_size_spec(blocks_sum(s) as int) < standard_size(s)
}

/// The blocks of a set.
pub open spec fn blocks_of(s: Seq<Block>, set: Set<u32>) -> bool {
    blocks_ok(s) && blocks_set(s) == set
}

/// `b` is what a builder of the values of `set` finishes as.
pub open spec fn finished(b: Seq<u8>, set: Set<u32>) -> bool {
    exists|s: Seq<Block>| #[trigger] blocks_of(s, set) && finished_as(b, s, set)
}

/// `b` is the smaller encoding of the blocks of `s`.
pub open spec fn finished_as(b: Seq<u8>, s: Seq<Block>, set: Set<u32>) -> bool {
    if inline_wins(s) {
        exists|vals: Seq<u32>| asc32(vals) && vals.to_set() == set && #[trigger] inline_exact(b, vals)
    } else {
        canonical(b, s)
    }
}

/// `b` is what a builder of the values of `set` finishes as in the standard format.
pub open spec fn finished_standard(b: Seq<u8>, set: Set<u32>) -> bool {
    exists|s: Seq<Block>| #[trigger] blocks_of(s, set) && canonical(b, s)
}

// --- words and bytes --------------------------------------------------------------------

proof fn lemma_u16_bytes(b: Seq<u8>, c: Seq<u8>, o: int)
    requires
        u16_at(b, o) == u16_at(c, o),
    ensures
        b[o] == c[o],
        b[o + 1] == c[o + 1],
{
}

proof fn lemma_u32_bytes(b: Seq<u8>, c: Seq<u8>, o: int)
    requires
        u32_at(b, o) == u32_at(c, o),
    ensures
        b[o] == c[o],
        b[o + 1] == c[o + 1],
        b[o + 2] == c[o + 2],
        b[o + 3] == c[o + 3],
{
}

/// The halves of a word are what it is made of.
proof fn lemma_halves(l: u32, h: u32, m: u32, i: u32)
    requires
        (l + 0x1_0000_0000 * h) as u64 == (m + 0x1_0000_0000 * i) as u64,
    ensures
        l == m,
        h == i,
{
}

#[verifier::spinoff_prover]
proof fn lemma_u64_bytes(b: Seq<u8>, c: Seq<u8>, o: int, k: int)
    requires
        u64_at(b, o) == u64_at(c, o),
        o <= k < o + 8,
    ensures
        b[k] == c[k],
{
    lemma_halves(u32_at(b, o), u32_at(b, o + 4), u32_at(c, o), u32_at(c, o + 4));
    if k < o + 4 {
        lemma_u32_bytes(b, c, o);
    } else {
        lemma_u32_bytes(b, c, o + 4);
    }
}

/// Words with the same bits are the same.
proof fn lemma_words(a: u64, b: u64)
    requires
        forall|i: int| 0 <= i < 64 ==> #[trigger] wbit(a, i) == wbit(b, i),
    ensures
        a == b,
{
    if a != b {
        let x = a ^ b;
        assert(x != 0) by (bit_vector)
            requires
                x == a ^ b,
                a != b,
        ;
        lemma_wbit_lowest(x, 0);
        let t = vstd::std_specs::bits::u64_trailing_zeros(x) as u64;
        assert(wbit(x, t as int));
        assert(wbit(a, t as int) == wbit(b, t as int));
        assert(false) by (bit_vector)
            requires
                x == a ^ b,
                t < 64,
                (x >> t) & 1 == 1,
                ((a >> t) & 1 == 1) == ((b >> t) & 1 == 1),
        ;
    }
}

// --- payloads -----------------------------------------------------------------------------

/// Where the runs start.
spec fn starts(p: Seq<Run>) -> Seq<u16> {
    Seq::new(p.len(), |i: int| p[i].start)
}

/// As few runs as a set has are the maximal ones.
proof fn lemma_maximal(p: Seq<Run>)
    requires
        runs_ok(p),
        p.len() == run_starts(runs_set(p)).len(),
    ensures
        asc16(starts(p)),
        starts(p).to_set() == run_starts(runs_set(p)),
{
    let (set, st) = (runs_set(p), starts(p));
    assert forall|i: int, j: int| 0 <= i < j < st.len() implies st[i] < st[j] by {
        assert(p[i].last() < p[j].start);
        assert(p[i].wf());
    }
    assert forall|x: u16| run_starts(set).contains(x) implies st.to_set().contains(x) by {
        let i = choose|i: int| 0 <= i < p.len() && (#[trigger] p[i]).has(x);
        if x != p[i].start {
            assert(p[i].has((x - 1) as u16));
            assert(set.contains((x - 1) as u16));
        }
        assert(st[i] == x);
    }
    lemma_asc16_len(st);
    lemma_set16(run_starts(set));
    vstd::set_lib::lemma_subset_equality(run_starts(set), st.to_set());
}

/// Runs that are apart are the maximal runs of what they cover.
pub proof fn lemma_apart_count(v: Seq<Run>)
    requires
        runs_ok(v),
        apart(v),
    ensures
        run_starts(runs_set(v)).len() == v.len(),
{
    let starts = Seq::new(v.len(), |i: int| v[i].start);
    let (s, t) = (run_starts(runs_set(v)), starts.to_set());
    assert forall|x: u16| s.contains(x) == t.contains(x) by {
        if s.contains(x) {
            let i = choose|i: int| 0 <= i < v.len() && (#[trigger] v[i]).has(x);
            if v[i].start < x {
                assert(v[i].has((x - 1) as u16));
            }
            assert(starts[i] == x);
        }
        if t.contains(x) {
            let i = choose|i: int| 0 <= i < starts.len() && starts[i] == x;
            assert(v[i].has(x));
            if x > 0 && runs_set(v).contains((x - 1) as u16) {
                let j = choose|j: int| 0 <= j < v.len() && (#[trigger] v[j]).has((x - 1) as u16);
                if j < i {
                    assert(v[j].last() + 1 < v[i].start);
                } else if i < j {
                    assert(v[i].last() + 1 < v[j].start);
                }
            }
        }
    }
    assert(s =~= t);
    assert(starts.no_duplicates()) by {
        assert forall|i: int, j: int| 0 <= i < j < starts.len() implies starts[i] != starts[j] by {
            assert(v[i].last() + 1 < v[j].start);
        }
    }
    starts.unique_seq_to_set();
}

/// There is one way to write a set in as few runs as it has.
proof fn lemma_runs_unique(p: Seq<Run>, q: Seq<Run>)
    requires
        runs_ok(p),
        runs_ok(q),
        runs_set(p) == runs_set(q),
        p.len() == run_starts(runs_set(p)).len(),
        q.len() == run_starts(runs_set(p)).len(),
    ensures
        p == q,
{
    lemma_maximal(p);
    lemma_maximal(q);
    let (sp, sq) = (starts(p), starts(q));
    assert forall|x: u16| sp.contains(x) <==> sq.contains(x) by {
        assert(sp.to_set().contains(x) == sq.to_set().contains(x));
    }
    lemma_asc16_unique(sp, sq);
    assert forall|i: int| 0 <= i < p.len() implies p[i] == q[i] by {
        assert(sp[i] == sq[i]);
        assert(p[i].wf() && q[i].wf());
        lemma_no_gap(p, q, i);
        lemma_no_gap(q, p, i);
    }
    assert(p =~= q);
}

/// A run does not end before the set does.
proof fn lemma_no_gap(p: Seq<Run>, q: Seq<Run>, i: int)
    requires
        runs_ok(p),
        runs_ok(q),
        runs_set(p) == runs_set(q),
        starts(p).to_set() == run_starts(runs_set(p)),
        0 <= i < p.len(),
        i < q.len(),
        p[i].start == q[i].start,
    ensures
        q[i].last() <= p[i].last(),
{
    let set = runs_set(p);
    assert(p[i].wf() && q[i].wf());
    if p[i].last() < q[i].last() {
        let x = (p[i].last() + 1) as u16;
        assert(q[i].has(x));
        assert(set.contains(x));
        let j = choose|j: int| 0 <= j < p.len() && (#[trigger] p[j]).has(x);
        assert(p[j].wf());
        if j < i {
            assert(p[j].last() < p[i].start);
        } else if j > i {
            assert(p[i].last() < p[j].start);
            assert(p[j].start == x);
            assert(starts(p)[j] == x);
            assert(starts(p).to_set().contains(x));
            assert(p[i].has((x - 1) as u16));
            assert(set.contains((x - 1) as u16));
        }
    }
}

/// Payloads of the same values in the same form are the same bytes, if runs are the same
/// runs.
#[verifier::rlimit(40)]
proof fn lemma_form_bytes(b: Seq<u8>, c: Seq<u8>, at: int, typ: u8, card: int, k: int)
    requires
        typ <= CT_RUN,
        payload_ok(b, at, typ, card),
        payload_ok(c, at, typ, card),
        payload_set(b, at, typ, card) == payload_set(c, at, typ, card),
        typ == CT_RUN ==> runs_at(b, at) == runs_at(c, at),
        at <= k < at + payload_size(b, at, typ, card),
    ensures
        b[k] == c[k],
{
    if typ == CT_ARRAY {
        let (x, y) = (array_at(b, at, card), array_at(c, at, card));
        assert forall|v: u16| x.contains(v) <==> y.contains(v) by {
            assert(x.to_set().contains(v) == y.to_set().contains(v));
        }
        lemma_asc16_unique(x, y);
        let i = (k - at) / 2;
        assert(x[i] == y[i]);
        lemma_u16_bytes(b, c, at + 2 * i);
    } else if typ == CT_BITMAP {
        let (x, y) = (words_at(b, at), words_at(c, at));
        let i = (k - at) / 8;
        assert forall|j: int| 0 <= j < 64 implies #[trigger] wbit(x[i], j) == wbit(y[i], j) by {
            let v = (64 * i + j) as u16;
            assert(bits_set(x).contains(v) == bits_set(y).contains(v));
            assert(v as int / 64 == i && v as int % 64 == j);
        }
        lemma_words(x[i], y[i]);
        lemma_u64_bytes(b, c, at + 8 * i, k);
    } else {
        let (p, q) = (runs_at(b, at), runs_at(c, at));
        assert(p.len() == q.len());
        if k < at + 2 {
            lemma_u16_bytes(b, c, at);
        } else {
            let i = (k - at - 2) / 4;
            assert(p[i] == q[i]);
            let o = at + 2 + 4 * i;
            lemma_u16_bytes(b, c, o);
            lemma_u16_bytes(b, c, o + 2);
        }
    }
}

/// Payloads of the same set in its smallest form are the same bytes.
proof fn lemma_payload_bytes(b: Seq<u8>, c: Seq<u8>, at: int, set: Set<u16>, k: int)
    requires
        ({
            let (typ, card) = (best_form(set), set.len() as int);
            &&& payload_ok(b, at, typ, card)
            &&& payload_ok(c, at, typ, card)
            &&& payload_set(b, at, typ, card) == set
            &&& payload_set(c, at, typ, card) == set
            &&& payload_size(b, at, typ, card) == best_cost(set)
            &&& payload_size(c, at, typ, card) == best_cost(set)
        }),
        at <= k < at + best_cost(set),
    ensures
        b[k] == c[k],
{
    if best_form(set) == CT_RUN {
        lemma_runs_unique(runs_at(b, at), runs_at(c, at));
    }
    lemma_form_bytes(b, c, at, best_form(set), set.len() as int, k);
}

// --- one encoding per set -------------------------------------------------------------------

/// Two standard encodings of the same blocks are the same bytes.
#[verifier::rlimit(40)]
proof fn lemma_canonical(b: Seq<u8>, c: Seq<u8>, s: Seq<Block>)
    requires
        blocks_ok(s),
        canonical(b, s),
        canonical(c, s),
    ensures
        b == c,
{
    let n = s.len() as int;
    let base = data_off_spec(n, any_form(s, CT_BITMAP));
    assert forall|k: int| 0 <= k < b.len() implies b[k] == c[k] by {
        if k < 16 {
            lemma_u32_bytes(b, c, 0);
            lemma_u16_bytes(b, c, 4);
            lemma_u16_bytes(b, c, 6);
            lemma_u32_bytes(b, c, 8);
            lemma_u32_bytes(b, c, 12);
        } else if k < 16 + 8 * n {
            assert forall|j: int| 0 <= j < n implies #[trigger] entry_at(b, n, j) == entry_at(
                c,
                n,
                j,
            ) by {
                assert(placed(b, s, base, j) && placed(c, s, base, j));
            }
            lemma_index_bytes(b, c, n, k);
        } else if in_payload(s, base, n, k) {
            let j = choose|j: int|
                0 <= j < n && #[trigger] block_off(s, j) <= k - base < block_off(s, j) + best_cost(
                    s[j].lows,
                );
            assert(placed(b, s, base, j) && placed(c, s, base, j));
            lemma_payload_bytes(b, c, base + block_off(s, j), s[j].lows, k);
        } else {
            assert(b[k] == 0 && c[k] == 0);
        }
    }
    assert(b =~= c);
}

/// Index entries determine the index bytes.
proof fn lemma_index_bytes(b: Seq<u8>, c: Seq<u8>, n: int, k: int)
    requires
        forall|j: int| 0 <= j < n ==> #[trigger] entry_at(b, n, j) == entry_at(c, n, j),
        16 <= k < 16 + 8 * n,
    ensures
        b[k] == c[k],
{
    if k < 16 + 2 * n {
        let j = (k - 16) / 2;
        assert(entry_at(b, n, j).key == entry_at(c, n, j).key);
        lemma_u16_bytes(b, c, 16 + 2 * j);
    } else if k < 16 + 4 * n {
        let j = (k - 16 - 2 * n) / 2;
        assert(entry_at(b, n, j).cardinality == entry_at(c, n, j).cardinality);
        lemma_u16_bytes(b, c, 16 + 2 * n + 2 * j);
    } else {
        let j = (k - 16 - 4 * n) / 4;
        let (x, y) = (entry_at(b, n, j), entry_at(c, n, j));
        assert(x.typ == y.typ && x.data_offset == y.data_offset);
        lemma_u32_bytes(b, c, 16 + 4 * n + 4 * j);
    }
}

/// The keys of blocks.
spec fn keys(s: Seq<Block>) -> Seq<u16> {
    Seq::new(s.len(), |i: int| s[i].key)
}

proof fn lemma_keys(s: Seq<Block>, key: u16)
    requires
        blocks_ok(s),
    ensures
        asc16(keys(s)),
        keys(s).contains(key) <==> under(blocks_set(s), key) != Set::<u16>::empty(),
{
    assert forall|i: int, j: int| 0 <= i < j < s.len() implies keys(s)[i] < keys(s)[j] by {
        assert(s[i].key < s[j].key);
    }
    if keys(s).contains(key) {
        let i = choose|i: int| 0 <= i < s.len() && keys(s)[i] == key;
        lemma_under_block(s, i);
        assert(s[i].lows.len() > 0);
    } else {
        assert forall|i: int| 0 <= i < s.len() implies (#[trigger] s[i]).key != key by {
            assert(keys(s)[i] == s[i].key);
        }
        lemma_under_none(s, key);
    }
}

/// A set has one list of blocks.
pub proof fn law_blocks_unique(s: Seq<Block>, t: Seq<Block>)
    requires
        blocks_ok(s),
        blocks_ok(t),
        blocks_set(s) == blocks_set(t),
    ensures
        s == t,
{
    assert forall|key: u16| keys(s).contains(key) <==> keys(t).contains(key) by {
        lemma_keys(s, key);
        lemma_keys(t, key);
    }
    lemma_keys(s, 0);
    lemma_keys(t, 0);
    lemma_asc16_unique(keys(s), keys(t));
    assert forall|i: int| 0 <= i < s.len() implies s[i] == t[i] by {
        assert(keys(s)[i] == keys(t)[i]);
        lemma_under_block(s, i);
        lemma_under_block(t, i);
    }
    assert(s =~= t);
}

proof fn lemma_inline_exact(b: Seq<u8>, c: Seq<u8>, vals: Seq<u32>)
    requires
        inline_exact(b, vals),
        inline_exact(c, vals),
    ensures
        b == c,
{
    assert forall|k: int| 0 <= k < b.len() implies b[k] == c[k] by {
        if k < 2 {
        } else if k < 4 {
            lemma_u16_bytes(b, c, 2);
        } else if k < 4 + 4 * vals.len() {
            let i = (k - 4) / 4;
            assert(inline_vals(b)[i] == inline_vals(c)[i]);
            lemma_u32_bytes(b, c, 4 + 4 * i);
        }
    }
    assert(b =~= c);
}

/// Output bytes are deterministic: what a builder finishes as depends on the set of values
/// alone.
pub proof fn law_deterministic(b: Seq<u8>, c: Seq<u8>, set: Set<u32>)
    requires
        finished(b, set),
        finished(c, set),
    ensures
        b == c,
{
    let s = choose|s: Seq<Block>| #[trigger] blocks_of(s, set) && finished_as(b, s, set);
    let t = choose|t: Seq<Block>| #[trigger] blocks_of(t, set) && finished_as(c, t, set);
    law_blocks_unique(s, t);
    if inline_wins(s) {
        let x = choose|x: Seq<u32>| asc32(x) && x.to_set() == set && #[trigger] inline_exact(b, x);
        let y = choose|y: Seq<u32>| asc32(y) && y.to_set() == set && #[trigger] inline_exact(c, y);
        assert forall|v: u32| x.contains(v) <==> y.contains(v) by {
            assert(x.to_set().contains(v) == y.to_set().contains(v));
        }
        lemma_asc32_unique(x, y);
        lemma_inline_exact(b, c, x);
    } else {
        lemma_canonical(b, c, s);
    }
}

/// The standard encoding is not the inline one.
pub proof fn lemma_canonical_standard(b: Seq<u8>, set: Set<u32>)
    requires
        finished_standard(b, set),
    ensures
        !inline_magic(b),
{
    let s = choose|s: Seq<Block>| #[trigger] blocks_of(s, set) && canonical(b, s);
    assert(u32_at(b, 0) == MAGIC);
}

/// So does what it finishes as in the standard format.
pub proof fn law_deterministic_standard(b: Seq<u8>, c: Seq<u8>, set: Set<u32>)
    requires
        finished_standard(b, set),
        finished_standard(c, set),
    ensures
        b == c,
{
    let s = choose|s: Seq<Block>| #[trigger] blocks_of(s, set) && canonical(b, s);
    let t = choose|t: Seq<Block>| #[trigger] blocks_of(t, set) && canonical(c, t);
    law_blocks_unique(s, t);
    lemma_canonical(b, c, s);
}

// --- one layout per list of containers --------------------------------------------------------

/// The containers of `b` and `c` have the same forms, and the same runs where they are runs.
pub open spec fn same_forms(b: Seq<u8>, c: Seq<u8>) -> bool {
    forall|i: int|
        0 <= i < std_n(b) ==> (#[trigger] std_entry(b, i)).typ == std_entry(c, i).typ && (std_entry(
            b,
            i,
        ).typ == CT_RUN ==> runs_at(b, std_start(b, i)) == runs_at(c, std_start(c, i)))
}

/// Container `j` is valid and in its place in `b` and `c`, and has the same values and form in
/// both.
#[verifier::opaque]
spec fn alike(b: Seq<u8>, c: Seq<u8>, j: int) -> bool {
    let (e, f) = (std_entry(b, j), std_entry(c, j));
    &&& std_payload_ok(b, j)
    &&& std_payload_ok(c, j)
    &&& behind(b, j)
    &&& behind(c, j)
    &&& e.key == f.key
    &&& std_lows(b, j) == std_lows(c, j)
    &&& e.typ == f.typ
    &&& e.typ == CT_RUN ==> runs_at(b, std_start(b, j)) == runs_at(c, std_start(c, j))
}

/// Container `j` has the same index entry and takes the same space, if the ones before it end
/// at the same place.
#[verifier::rlimit(40)]
proof fn lemma_same_entry(b: Seq<u8>, c: Seq<u8>, j: int)
    requires
        alike(b, c, j),
        0 <= std_end(b, j) == std_end(c, j),
    ensures
        std_entry(b, j) == std_entry(c, j),
        std_size(b, j) == std_size(c, j) >= 0,
        std_end(b, j) <= std_entry(b, j).data_offset,
{
    reveal(alike);
    let (e, f) = (std_entry(b, j), std_entry(c, j));
    lemma_payload_len(b, std_start(b, j), e.typ, e.cardinality as int);
    lemma_payload_len(c, std_start(c, j), f.typ, f.cardinality as int);
    lemma_align_up(std_end(b, j), 64);
    lemma_align_up(std_end(b, j), 2);
    if e.typ == CT_RUN {
        assert(runs_at(b, std_start(b, j)).len() == runs_at(c, std_start(c, j)).len());
    }
}

/// The bytes of container `j`, and the gap before it, are the same.
proof fn lemma_same_bytes(b: Seq<u8>, c: Seq<u8>, j: int, k: int)
    requires
        std_base(b) == std_base(c),
        alike(b, c, j),
        std_end(b, j) == std_end(c, j),
        std_entry(b, j) == std_entry(c, j),
        std_base(b) + std_end(b, j) <= k < std_start(b, j) + std_size(b, j),
    ensures
        b[k] == c[k],
{
    reveal(alike);
    let e = std_entry(b, j);
    let at = std_start(b, j);
    if k >= at {
        lemma_form_bytes(b, c, at, e.typ, e.cardinality as int, k);
    } else {
        assert(b[k] == 0 && c[k] == 0);
    }
}

/// What follows the gap and payload of container `j`.
proof fn lemma_end_next(b: Seq<u8>, j: int)
    requires
        0 <= j,
    ensures
        std_end(b, j + 1) == std_entry(b, j).data_offset + std_size(b, j),
        std_base(b) + std_end(b, j + 1) == std_start(b, j) + std_size(b, j),
{
}

/// The payloads of the first `i` containers are at the same place, and the same bytes.
#[verifier::rlimit(40)]
proof fn lemma_same_payloads(b: Seq<u8>, c: Seq<u8>, i: int)
    requires
        std_base(b) == std_base(c),
        forall|j: int| 0 <= j < i ==> #[trigger] alike(b, c, j),
        0 <= i,
    ensures
        0 <= std_end(b, i) == std_end(c, i),
        forall|k: int| std_base(b) <= k < std_base(b) + std_end(b, i) ==> b[k] == c[k],
        forall|j: int| 0 <= j < i ==> #[trigger] std_entry(b, j) == std_entry(c, j),
    decreases i,
{
    if i > 0 {
        let j = i - 1;
        lemma_same_payloads(b, c, j);
        assert(alike(b, c, j));
        lemma_same_entry(b, c, j);
        lemma_end_next(b, j);
        lemma_end_next(c, j);
        assert forall|k: int| std_base(b) <= k < std_base(b) + std_end(b, i) implies b[k] == c[k] by {
            if k >= std_base(b) + std_end(b, j) {
                lemma_same_bytes(b, c, j, k);
            }
        }
    }
}

/// Where the forms are the same, so is the presence of each.
proof fn lemma_same_flag(b: Seq<u8>, c: Seq<u8>, f: u8)
    requires
        std_n(b) == std_n(c),
        same_forms(b, c),
    ensures
        (exists|i: int| 0 <= i < std_n(b) && (#[trigger] std_entry(b, i)).typ == f) <==> (exists|i: int|
            0 <= i < std_n(c) && (#[trigger] std_entry(c, i)).typ == f),
{
    if exists|i: int| 0 <= i < std_n(b) && (#[trigger] std_entry(b, i)).typ == f {
        let i = choose|i: int| 0 <= i < std_n(b) && (#[trigger] std_entry(b, i)).typ == f;
        assert(std_entry(c, i).typ == f);
    }
    if exists|i: int| 0 <= i < std_n(c) && (#[trigger] std_entry(c, i)).typ == f {
        let i = choose|i: int| 0 <= i < std_n(c) && (#[trigger] std_entry(c, i)).typ == f;
        assert(std_entry(b, i).typ == f);
    }
}

/// The bytes of a serialized result depend on its values and the form of each container
/// alone.
#[verifier::rlimit(40)]
pub proof fn law_layout(b: Seq<u8>, c: Seq<u8>)
    requires
        std_ok(b),
        std_ok(c),
        tidy(b),
        tidy(c),
        snug(b),
        snug(c),
        blocks_set(std_blocks(b)) == blocks_set(std_blocks(c)),
        same_forms(b, c),
    ensures
        b == c,
{
    let n = std_n(b);
    lemma_std(b);
    lemma_std(c);
    law_blocks_unique(std_blocks(b), std_blocks(c));
    assert(std_blocks(b).len() == std_blocks(c).len());
    lemma_same_flag(b, c, CT_RUN);
    lemma_same_flag(b, c, CT_BITMAP);
    assert(header_of(b) == header_of(c));
    assert forall|j: int| 0 <= j < n implies #[trigger] alike(b, c, j) by {
        reveal(alike);
        assert(behind(b, j) && behind(c, j));
        assert(std_payload_ok(b, j) && std_payload_ok(c, j));
        assert(std_blocks(b)[j] == std_blocks(c)[j]);
        assert(std_entry(b, j).typ == std_entry(c, j).typ);
    }
    lemma_same_payloads(b, c, n);
    assert forall|k: int| 0 <= k < b.len() implies b[k] == c[k] by {
        if k < 16 {
            lemma_u32_bytes(b, c, 0);
            lemma_u16_bytes(b, c, 4);
            lemma_u16_bytes(b, c, 6);
            lemma_u32_bytes(b, c, 8);
            lemma_u32_bytes(b, c, 12);
        } else if k < 16 + 8 * n {
            assert forall|j: int| 0 <= j < n implies #[trigger] entry_at(b, n, j) == entry_at(
                c,
                n,
                j,
            ) by {
                assert(std_entry(b, j) == std_entry(c, j));
            }
            lemma_index_bytes(b, c, n, k);
        } else if k < std_base(b) {
            assert(b[k] == 0 && c[k] == 0);
        }
    }
    assert(b =~= c);
}

} // verus!
