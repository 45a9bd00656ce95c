//! Mathematical model: ascending sequences, and the split of a 32-bit value
//! into a 16-bit block key and a 16-bit low half.
use vstd::prelude::*;

verus! {

/// Everything from `n` on is as it was.
pub open spec fn untouched<T>(before: Seq<T>, after: Seq<T>, n: int) -> bool {
    &&& after.len() == before.len()
    &&& forall|k: int| n <= k < before.len() ==> #[trigger] after[k] == before[k]
}

/// Strictly ascending 16-bit values.
pub open spec fn asc16(s: Seq<u16>) -> bool {
    forall|i: int, j: int| 0 <= i < j < s.len() ==> s[i] < s[j]
}

/// Strictly ascending 32-bit values.
pub open spec fn asc32(s: Seq<u32>) -> bool {
    forall|i: int, j: int| 0 <= i < j < s.len() ==> s[i] < s[j]
}

/// Block key of a value: its high half.
pub open spec fn hi(v: u32) -> u16 {
    (v / 65536) as u16
}

/// Container-local part of a value: its low half.
pub open spec fn lo(v: u32) -> u16 {
    (v % 65536) as u16
}

/// The value of low half `low` in block `key`.
pub open spec fn join(key: u16, low: u16) -> u32 {
    (key * 65536 + low) as u32
}

pub proof fn lemma_join(key: u16, low: u16)
    ensures
        hi(join(key, low)) == key,
        lo(join(key, low)) == low,
        join(key, low) == key * 65536 + low,
{
}

pub proof fn lemma_split(v: u32)
    ensures
        join(hi(v), lo(v)) == v,
        v == hi(v) * 65536 + lo(v),
{
}

/// An ascending sequence has as many elements as its set.
pub proof fn lemma_asc16_len(s: Seq<u16>)
    requires
        asc16(s),
    ensures
        s.to_set().finite(),
        s.to_set().len() == s.len(),
{
    assert(s.no_duplicates());
    s.unique_seq_to_set();
    vstd::seq_lib::seq_to_set_is_finite(s);
}

pub proof fn lemma_asc32_len(s: Seq<u32>)
    requires
        asc32(s),
    ensures
        s.to_set().finite(),
        s.to_set().len() == s.len(),
{
    assert(s.no_duplicates());
    s.unique_seq_to_set();
    vstd::seq_lib::seq_to_set_is_finite(s);
}

/// Two ascending sequences with the same elements are the same sequence.
pub proof fn lemma_asc16_unique(s: Seq<u16>, t: Seq<u16>)
    requires
        asc16(s),
        asc16(t),
        forall|x: u16| s.contains(x) <==> t.contains(x),
    ensures
        s == t,
    decreases s.len(),
{
    if s.len() == 0 {
        if t.len() > 0 {
            assert(t.contains(t[0]));
        }
        assert(s =~= t);
    } else {
        assert(s.contains(s[0]));
        assert(t.len() > 0);
        assert(t.contains(t.last()));
        assert(s.contains(s.last()));
        assert(s.last() == t.last());
        let (s1, t1) = (s.drop_last(), t.drop_last());
        assert forall|x: u16| s1.contains(x) <==> t1.contains(x) by {
            if s1.contains(x) {
                let i = choose|i: int| 0 <= i < s1.len() && s1[i] == x;
                assert(s[i] == x);
                assert(s.contains(x));
                let j = choose|j: int| 0 <= j < t.len() && t[j] == x;
                assert(j < t1.len());
                assert(t1[j] == x);
            }
            if t1.contains(x) {
                let i = choose|i: int| 0 <= i < t1.len() && t1[i] == x;
                assert(t[i] == x);
                assert(t.contains(x));
                let j = choose|j: int| 0 <= j < s.len() && s[j] == x;
                assert(j < s1.len());
                assert(s1[j] == x);
            }
        }
        lemma_asc16_unique(s1, t1);
        assert(s =~= s1.push(s.last()));
        assert(t =~= t1.push(t.last()));
    }
}

/// Two ascending sequences with the same elements are the same sequence.
pub proof fn lemma_asc32_unique(s: Seq<u32>, t: Seq<u32>)
    requires
        asc32(s),
        asc32(t),
        forall|x: u32| s.contains(x) <==> t.contains(x),
    ensures
        s == t,
    decreases s.len(),
{
    if s.len() == 0 {
        if t.len() > 0 {
            assert(t.contains(t[0]));
        }
        assert(s =~= t);
    } else {
        assert(s.contains(s[0]));
        assert(t.len() > 0);
        assert(t.contains(t.last()));
        assert(s.contains(s.last()));
        assert(s.last() == t.last());
        let (s1, t1) = (s.drop_last(), t.drop_last());
        assert forall|x: u32| s1.contains(x) <==> t1.contains(x) by {
            if s1.contains(x) {
                let i = choose|i: int| 0 <= i < s1.len() && s1[i] == x;
                assert(s[i] == x);
                assert(s.contains(x));
                let j = choose|j: int| 0 <= j < t.len() && t[j] == x;
                assert(j < t1.len());
                assert(t1[j] == x);
            }
            if t1.contains(x) {
                let i = choose|i: int| 0 <= i < t1.len() && t1[i] == x;
                assert(t[i] == x);
                assert(t.contains(x));
                let j = choose|j: int| 0 <= j < s.len() && s[j] == x;
                assert(j < s1.len());
                assert(s1[j] == x);
            }
        }
        lemma_asc32_unique(s1, t1);
        assert(s =~= s1.push(s.last()));
        assert(t =~= t1.push(t.last()));
    }
}

/// Strictly ascending 16-bit values number at most 65536.
pub proof fn lemma_asc16_bound(s: Seq<u16>)
    requires
        asc16(s),
    ensures
        s.len() <= 65536,
        forall|i: int| 0 <= i < s.len() ==> i <= #[trigger] s[i],
{
    assert forall|i: int| 0 <= i < s.len() implies i <= #[trigger] s[i] by {
        lemma_asc16_index(s, i);
    }
    if s.len() > 65536 {
        assert(65536 <= s[65536]);
    }
}

proof fn lemma_asc16_index(s: Seq<u16>, i: int)
    requires
        asc16(s),
        0 <= i < s.len(),
    ensures
        i <= s[i],
    decreases i,
{
    if i > 0 {
        lemma_asc16_index(s, i - 1);
        assert(s[i - 1] < s[i]);
    }
}

/// Every set of 16-bit values is finite and has at most 65536 elements.
pub proof fn lemma_set16(s: Set<u16>)
    ensures
        s.finite(),
        s.len() <= 65536,
{
    let all = Seq::new(65536, |i: int| i as u16);
    lemma_asc16_len(all);
    assert forall|x: u16| s.contains(x) implies all.to_set().contains(x) by {
        assert(all[x as int] == x);
    }
    vstd::set_lib::lemma_len_subset(s, all.to_set());
}

/// Every set of 32-bit values is finite and has at most 2^32 elements.
pub proof fn lemma_set32(s: Set<u32>)
    ensures
        s.finite(),
        s.len() <= 0x1_0000_0000,
{
    let all = Seq::new(0x1_0000_0000, |i: int| i as u32);
    lemma_asc32_len(all);
    assert forall|x: u32| s.contains(x) implies all.to_set().contains(x) by {
        assert(all[x as int] == x);
    }
    vstd::set_lib::lemma_len_subset(s, all.to_set());
}

/// The first `k` entries of `out` list the elements of `t`, ascending.
pub open spec fn lists(out: Seq<u16>, k: int, t: Set<u16>) -> bool {
    &&& 0 <= k <= out.len()
    &&& asc16(out.take(k))
    &&& out.take(k).to_set() == t
}

/// A listing has exactly as many entries as its set has elements.
pub proof fn lemma_lists_len(out: Seq<u16>, k: int, t: Set<u16>)
    requires
        lists(out, k, t),
    ensures
        k == t.len(),
{
    lemma_asc16_len(out.take(k));
}

// --- keyed blocks ----------------------------------------------------------------

/// The values of one 64K block: a key, and the low halves under it.
pub struct Block {
    pub key: u16,
    pub lows: Set<u16>,
}

/// Keys strictly ascend, and no block is empty.
pub open spec fn blocks_ok(s: Seq<Block>) -> bool {
    &&& forall|i: int, j: int| 0 <= i < j < s.len() ==> (#[trigger] s[i]).key < (#[trigger] s[j]).key
    &&& forall|i: int| 0 <= i < s.len() ==> (#[trigger] s[i]).lows.len() > 0
}

/// Block `i` holds `v`.
pub open spec fn block_has(s: Seq<Block>, i: int, v: u32) -> bool {
    s[i].key == hi(v) && s[i].lows.contains(lo(v))
}

/// The values of all blocks.
pub open spec fn blocks_set(s: Seq<Block>) -> Set<u32> {
    Set::new(|v: u32| exists|i: int| 0 <= i < s.len() && #[trigger] block_has(s, i, v))
}

/// Sum of the block sizes.
pub open spec fn blocks_sum(s: Seq<Block>) -> nat
    decreases s.len(),
{
    if s.len() == 0 {
        0
    } else {
        blocks_sum(s.drop_last()) + s.last().lows.len()
    }
}

/// The low halves of `s` under `key`.
pub open spec fn under(s: Set<u32>, key: u16) -> Set<u16> {
    Set::new(|l: u16| s.contains(join(key, l)))
}

/// The low halves of a block's key are the block.
pub proof fn lemma_under_block(s: Seq<Block>, i: int)
    requires
        blocks_ok(s),
        0 <= i < s.len(),
    ensures
        under(blocks_set(s), s[i].key) == s[i].lows,
{
    let key = s[i].key;
    assert forall|l: u16| under(blocks_set(s), key).contains(l) == s[i].lows.contains(l) by {
        let v = join(key, l);
        lemma_join(key, l);
        if s[i].lows.contains(l) {
            assert(block_has(s, i, v));
        }
        if blocks_set(s).contains(v) {
            let j = choose|j: int| 0 <= j < s.len() && #[trigger] block_has(s, j, v);
            if j < i {
                assert(s[j].key < s[i].key);
            } else if j > i {
                assert(s[i].key < s[j].key);
            }
        }
    }
    assert(under(blocks_set(s), key) =~= s[i].lows);
}

/// Nothing lies under a key no block has.
pub proof fn lemma_under_none(s: Seq<Block>, key: u16)
    requires
        forall|i: int| 0 <= i < s.len() ==> (#[trigger] s[i]).key != key,
    ensures
        under(blocks_set(s), key) == Set::<u16>::empty(),
{
    assert forall|l: u16| !under(blocks_set(s), key).contains(l) by {
        let v = join(key, l);
        lemma_join(key, l);
        if blocks_set(s).contains(v) {
            let j = choose|j: int| 0 <= j < s.len() && #[trigger] block_has(s, j, v);
            assert(s[j].key == key);
        }
    }
    assert(under(blocks_set(s), key) =~= Set::<u16>::empty());
}

/// The values of one block.
pub open spec fn one_block(b: Block) -> Set<u32> {
    Set::new(|v: u32| b.key == hi(v) && b.lows.contains(lo(v)))
}

/// One block holds as many values as low halves.
pub proof fn lemma_one_block(b: Block)
    ensures
        one_block(b).finite(),
        one_block(b).len() == b.lows.len(),
{
    lemma_set16(b.lows);
    let f = |l: u16| join(b.key, l);
    assert forall|x: u16, y: u16| #[trigger] f(x) == #[trigger] f(y) implies x == y by {
        lemma_join(b.key, x);
        lemma_join(b.key, y);
    }
    assert forall|v: u32| one_block(b).contains(v) == b.lows.map(f).contains(v) by {
        if one_block(b).contains(v) {
            lemma_split(v);
            assert(f(lo(v)) == v);
        }
        if b.lows.map(f).contains(v) {
            let l = choose|l: u16| b.lows.contains(l) && f(l) == v;
            lemma_join(b.key, l);
        }
    }
    assert(one_block(b) =~= b.lows.map(f));
    vstd::set_lib::lemma_map_size(b.lows, one_block(b), f);
}

/// The last block and the ones before it.
pub proof fn lemma_blocks_last(s: Seq<Block>)
    requires
        blocks_ok(s),
        s.len() > 0,
    ensures
        blocks_ok(s.drop_last()),
        blocks_set(s) == blocks_set(s.drop_last()).union(one_block(s.last())),
        blocks_set(s.drop_last()).disjoint(one_block(s.last())),
{
    let p = s.drop_last();
    let n = p.len() as int;
    assert(blocks_ok(p)) by {
        assert forall|i: int, j: int| 0 <= i < j < p.len() implies (#[trigger] p[i]).key < (
        #[trigger] p[j]).key by {
            assert(s[i].key < s[j].key);
        }
        assert forall|i: int| 0 <= i < p.len() implies (#[trigger] p[i]).lows.len() > 0 by {
            assert(s[i].lows.len() > 0);
        }
    }
    assert forall|v: u32| blocks_set(s).contains(v) == (blocks_set(p).contains(v) || one_block(
        s.last(),
    ).contains(v)) by {
        if blocks_set(s).contains(v) {
            let i = choose|i: int| 0 <= i < s.len() && #[trigger] block_has(s, i, v);
            if i < n {
                assert(block_has(p, i, v));
            }
        }
        if blocks_set(p).contains(v) {
            let i = choose|i: int| 0 <= i < p.len() && #[trigger] block_has(p, i, v);
            assert(block_has(s, i, v));
        }
        if one_block(s.last()).contains(v) {
            assert(block_has(s, n, v));
        }
    }
    assert(blocks_set(s) =~= blocks_set(p).union(one_block(s.last())));
    assert forall|v: u32| !(blocks_set(p).contains(v) && one_block(s.last()).contains(v)) by {
        if blocks_set(p).contains(v) && one_block(s.last()).contains(v) {
            let i = choose|i: int| 0 <= i < p.len() && #[trigger] block_has(p, i, v);
            assert(s[i].key < s[n].key);
        }
    }
}

/// Blocks hold as many values as their sizes sum up to.
pub proof fn lemma_blocks_len(s: Seq<Block>)
    requires
        blocks_ok(s),
    ensures
        blocks_set(s).finite(),
        blocks_set(s).len() == blocks_sum(s),
    decreases s.len(),
{
    if s.len() == 0 {
        assert(blocks_set(s) =~= Set::<u32>::empty());
    } else {
        lemma_blocks_last(s);
        lemma_blocks_len(s.drop_last());
        lemma_one_block(s.last());
        vstd::set_lib::lemma_set_disjoint_lens(blocks_set(s.drop_last()), one_block(s.last()));
    }
}

/// The blocks from `k` on: the first of them, then the others.
pub proof fn lemma_blocks_skip(s: Seq<Block>, k: int)
    requires
        blocks_ok(s),
        0 <= k < s.len(),
    ensures
        blocks_set(s.skip(k)) == one_block(s[k]).union(blocks_set(s.skip(k + 1))),
        forall|v: u32| #[trigger] blocks_set(s.skip(k + 1)).contains(v) ==> hi(v) > s[k].key,
{
    let (a, z) = (s.skip(k), s.skip(k + 1));
    assert forall|v: u32| blocks_set(a).contains(v) == (one_block(s[k]).contains(v) || blocks_set(
        z,
    ).contains(v)) by {
        if blocks_set(a).contains(v) {
            let i = choose|i: int| 0 <= i < a.len() && #[trigger] block_has(a, i, v);
            if i > 0 {
                assert(block_has(z, i - 1, v));
            }
        }
        if one_block(s[k]).contains(v) {
            assert(block_has(a, 0, v));
        }
        if blocks_set(z).contains(v) {
            let i = choose|i: int| 0 <= i < z.len() && #[trigger] block_has(z, i, v);
            assert(block_has(a, i + 1, v));
        }
    }
    assert(blocks_set(a) =~= one_block(s[k]).union(blocks_set(z)));
    assert forall|v: u32| #[trigger] blocks_set(z).contains(v) implies hi(v) > s[k].key by {
        let i = choose|i: int| 0 <= i < z.len() && #[trigger] block_has(z, i, v);
        assert(s[k].key < s[k + 1 + i].key);
    }
}

/// `key` is the smallest key of `s`.
pub open spec fn is_first(s: Set<u32>, key: u16) -> bool {
    &&& under(s, key).len() > 0
    &&& forall|v: u32| #[trigger] s.contains(v) ==> hi(v) >= key
}

/// The values of `s` past block `key`.
pub open spec fn past(s: Set<u32>, key: u16) -> Set<u32> {
    Set::new(|v: u32| s.contains(v) && hi(v) > key)
}

/// The values of `s` from block `key` on.
pub open spec fn since(s: Set<u32>, key: u16) -> Set<u32> {
    Set::new(|v: u32| s.contains(v) && hi(v) >= key)
}

/// The values of `s` under the keys of `keys`.
pub open spec fn masked(s: Set<u32>, keys: Set<u16>) -> Set<u32> {
    Set::new(|v: u32| s.contains(v) && keys.contains(hi(v)))
}

/// Something lies under `key` exactly when a value of `s` has that key.
pub proof fn lemma_under_some(s: Set<u32>, key: u16)
    ensures
        under(s, key).finite(),
        under(s, key).len() > 0 <==> exists|v: u32| #[trigger] s.contains(v) && hi(v) == key,
{
    lemma_set16(under(s, key));
    if under(s, key).len() > 0 {
        let l = under(s, key).choose();
        assert(under(s, key).contains(l));
        lemma_join(key, l);
        assert(s.contains(join(key, l)));
    }
    if exists|v: u32| #[trigger] s.contains(v) && hi(v) == key {
        let v = choose|v: u32| #[trigger] s.contains(v) && hi(v) == key;
        lemma_split(v);
        assert(under(s, key).contains(lo(v)));
    }
}

/// The first of the blocks from `k` on.
pub proof fn lemma_blocks_first(s: Seq<Block>, k: int)
    requires
        blocks_ok(s),
        0 <= k < s.len(),
    ensures
        is_first(blocks_set(s.skip(k)), s[k].key),
        under(blocks_set(s.skip(k)), s[k].key) == s[k].lows,
        past(blocks_set(s.skip(k)), s[k].key) == blocks_set(s.skip(k + 1)),
{
    let a = blocks_set(s.skip(k));
    let z = blocks_set(s.skip(k + 1));
    let key = s[k].key;
    lemma_blocks_skip(s, k);
    assert forall|l: u16| under(a, key).contains(l) == s[k].lows.contains(l) by {
        lemma_join(key, l);
    }
    assert(under(a, key) =~= s[k].lows);
    assert(s[k].lows.len() > 0);
    assert(past(a, key) =~= z);
}

/// The values of `s` in the blocks from `lo` on.
pub open spec fn onward(s: Set<u32>, lo: int) -> Set<u32> {
    Set::new(|v: u32| s.contains(v) && hi(v) >= lo)
}

/// The values of `s` in the blocks before `lo`.
pub open spec fn upto(s: Set<u32>, lo: int) -> Set<u32> {
    Set::new(|v: u32| s.contains(v) && hi(v) < lo)
}

/// The first block from `lo` on.
pub proof fn lemma_onward(s: Set<u32>, lo: int, key: u16)
    requires
        is_first(onward(s, lo), key),
    ensures
        lo <= key,
        past(onward(s, lo), key) == onward(s, key + 1),
        under(onward(s, lo), key) == under(s, key),
        under(s, key).len() > 0,
        onward(s, lo) != Set::<u32>::empty(),
        forall|k: u16| lo <= k < key ==> #[trigger] under(s, k).len() == 0,
{
    let w = onward(s, lo);
    lemma_under_some(w, key);
    let v = choose|v: u32| #[trigger] w.contains(v) && hi(v) == key;
    assert(w.contains(v));
    assert(past(w, key) =~= onward(s, key + 1));
    assert forall|l: u16| under(w, key).contains(l) == under(s, key).contains(l) by {
        lemma_join(key, l);
    }
    assert(under(w, key) =~= under(s, key));
    assert forall|k: u16| lo <= k < key implies #[trigger] under(s, k).len() == 0 by {
        lemma_under_some(s, k);
        if under(s, k).len() > 0 {
            let u = choose|u: u32| #[trigger] s.contains(u) && hi(u) == k;
            assert(w.contains(u));
        }
    }
}

/// Nothing left from `lo` on.
pub proof fn lemma_onward_none(s: Set<u32>, lo: int)
    requires
        onward(s, lo) == Set::<u32>::empty(),
    ensures
        upto(s, lo) == s,
        forall|k: u16| lo <= k ==> #[trigger] under(s, k).len() == 0,
{
    assert forall|v: u32| s.contains(v) == upto(s, lo).contains(v) by {
        if s.contains(v) && hi(v) >= lo {
            assert(onward(s, lo).contains(v));
        }
    }
    assert(upto(s, lo) =~= s);
    assert forall|k: u16| lo <= k implies #[trigger] under(s, k).len() == 0 by {
        lemma_under_some(s, k);
        if under(s, k).len() > 0 {
            let u = choose|u: u32| #[trigger] s.contains(u) && hi(u) == k;
            assert(onward(s, lo).contains(u));
        }
    }
}

/// A block from `lo` on is whole.
pub proof fn lemma_under_onward(s: Set<u32>, lo: int, key: u16)
    requires
        lo <= key,
    ensures
        under(onward(s, lo), key) == under(s, key),
{
    assert forall|l: u16| under(onward(s, lo), key).contains(l) == under(s, key).contains(l) by {
        lemma_join(key, l);
    }
    assert(under(onward(s, lo), key) =~= under(s, key));
}

// --- sums in any order -------------------------------------------------------------------

/// `w(0) + .. + w(n - 1)`.
pub open spec fn sum_to(w: spec_fn(int) -> int, n: int) -> int
    decreases n,
{
    if n <= 0 {
        0
    } else {
        sum_to(w, n - 1) + w(n - 1)
    }
}

/// The sum of `w` over `p`.
pub open spec fn sum_at(w: spec_fn(int) -> int, p: Seq<int>) -> int
    decreases p.len(),
{
    if p.len() == 0 {
        0
    } else {
        sum_at(w, p.drop_last()) + w(p.last())
    }
}

proof fn lemma_sum_remove(w: spec_fn(int) -> int, p: Seq<int>, k: int)
    requires
        0 <= k < p.len(),
    ensures
        sum_at(w, p) == sum_at(w, p.remove(k)) + w(p[k]),
    decreases p.len(),
{
    let n = p.len() - 1;
    if k == n {
        assert(p.remove(k) =~= p.drop_last());
    } else {
        lemma_sum_remove(w, p.drop_last(), k);
        assert(p.remove(k).drop_last() =~= p.drop_last().remove(k));
        assert(p.remove(k).last() == p.last());
    }
}

/// The order of the terms does not matter.
pub proof fn lemma_sum_order(w: spec_fn(int) -> int, p: Seq<int>, n: int)
    requires
        0 <= n,
        p.no_duplicates(),
        forall|k: int| 0 <= k < p.len() ==> 0 <= #[trigger] p[k] < n,
        forall|i: int| 0 <= i < n ==> #[trigger] p.contains(i),
    ensures
        sum_at(w, p) == sum_to(w, n),
    decreases n,
{
    if n == 0 {
        if p.len() > 0 {
            assert(0 <= p[0] < n);
        }
    } else {
        assert(p.contains(n - 1));
        let k = choose|k: int| 0 <= k < p.len() && p[k] == n - 1;
        let q = p.remove(k);
        lemma_sum_remove(w, p, k);
        assert forall|j: int| 0 <= j < q.len() implies 0 <= #[trigger] q[j] < n - 1 by {
            let m = if j < k { j } else { j + 1 };
            assert(q[j] == p[m]);
            assert(p[m] != p[k]);
        }
        assert forall|i: int| 0 <= i < n - 1 implies #[trigger] q.contains(i) by {
            assert(p.contains(i));
            let m = choose|m: int| 0 <= m < p.len() && p[m] == i;
            assert(q[if m < k { m } else { m - 1 }] == i);
        }
        assert forall|i: int, j: int| 0 <= i < q.len() && 0 <= j < q.len() && i != j implies q[i]
            != q[j] by {
            let (x, y) = (if i < k { i } else { i + 1 }, if j < k { j } else { j + 1 });
            assert(q[i] == p[x] && q[j] == p[y]);
        }
        lemma_sum_order(w, q, n - 1);
    }
}

} // verus!
