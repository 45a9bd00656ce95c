//! What holds of the library as a whole: laws that relate several of its functions, over
//! the models their contracts use.
use vstd::prelude::*;

use crate::arena::OpArena;
use crate::builder::{
    any_form, array_cost, best_cost, best_form, data_len, lemma_best_cost, lemma_data_len, placed,
    run_cost, run_starts, standard_size,
};
use crate::canon::{
    blocks_of, canonical, finished, finished_as, finished_standard, header_for, inline_exact,
    inline_wins, law_blocks_unique, law_deterministic_standard,
};
use crate::container::{lemma_payload_len, runs_at, runs_ok, runs_set, Run};
use crate::expr::BitmapExpr;
use crate::format::{
    align_up_spec, data_off_spec, header_of, inline_magic, inline_size_spec, lemma_align_up,
    lemma_align_up_least, ARRAY_MAX_SIZE, BITMAP_BYTES, CT_ARRAY, CT_BITMAP, CT_RUN,
    INLINE_MAX_COUNT,
};
use crate::frozen::{
    aligned_at, behind, compact, form_align, frozen_card, frozen_ok, frozen_set, lemma_aligned,
    lemma_frozen_card, lemma_std, lemma_std_from, slim, snug, std_blocks, std_end, std_entry, std_lows, std_n, std_ok,
    std_payload_ok, std_size, std_start, tidy,
};
use crate::machine::{lemma_masked_op, masked_sets, op_set};
use crate::model::{
    asc32, blocks_ok, blocks_set, hi, lemma_blocks_len, lemma_set16, lemma_set32, lemma_split, lo,
    masked, under, Block,
};
use crate::plan::{difference_of, intersection_of, union_of, Op};
use crate::source::Inputs;
use crate::view::{aligned, FrozenBitmapView};

verus! {

// --- persistence ------------------------------------------------------------------------

/// What a builder finished is a well-formed frozen bitmap, and reads back as the values that
/// went in.
pub proof fn law_read_back(b: Seq<u8>, set: Set<u32>)
    requires
        finished(b, set) || finished_standard(b, set),
    ensures
        frozen_ok(b),
        frozen_set(b) == set,
{
    if finished_standard(b, set) {
        let s = choose|s: Seq<Block>| #[trigger] blocks_of(s, set) && canonical(b, s);
        lemma_canonical_reads(b, s);
    } else {
        let s = choose|s: Seq<Block>| #[trigger] blocks_of(s, set) && finished_as(b, s, set);
        if inline_wins(s) {
            let vals = choose|vals: Seq<u32>|
                asc32(vals) && vals.to_set() == set && #[trigger] inline_exact(b, vals);
            lemma_align_up(4 + 4 * vals.len() as int, 8);
        } else {
            lemma_canonical_reads(b, s);
        }
    }
}

/// What a builder finished is accepted wherever it starts on a boundary of eight bytes, or of
/// four in the inline encoding, and is read as the values that went in, all of them and no
/// other.
pub proof fn law_accepted(b: Seq<u8>, set: Set<u32>, addr: int)
    requires
        finished(b, set) || finished_standard(b, set),
        addr % 8 == 0 || inline_magic(b) && addr % 4 == 0,
    ensures
        frozen_ok(b) && aligned(b, addr),
        frozen_set(b) == set,
        frozen_card(b) == set.len(),
{
    law_read_back(b, set);
    lemma_frozen_card(b);
}

/// Where well-formed bytes may lie: on a boundary of eight, or of four in the inline encoding
/// with any values, or of one without.
pub proof fn law_aligned(b: Seq<u8>, addr: int)
    requires
        frozen_ok(b),
    ensures
        !inline_magic(b) ==> (aligned(b, addr) <==> addr % 8 == 0),
        inline_magic(b) && frozen_set(b) != Set::<u32>::empty() ==> (aligned(b, addr) <==> addr % 4
            == 0),
        inline_magic(b) && frozen_set(b) == Set::<u32>::empty() ==> aligned(b, addr),
{
    lemma_frozen_card(b);
    lemma_set32(frozen_set(b));
    if frozen_set(b).len() == 0 {
        assert(frozen_set(b) =~= Set::<u32>::empty());
    }
}

pub(crate) proof fn lemma_block_costs(s: Seq<Block>)
    requires
        blocks_ok(s),
    ensures
        forall|k: int| 0 <= k < s.len() ==> 0 < best_cost((#[trigger] s[k]).lows) <= BITMAP_BYTES,
        s.len() <= 65536,
{
    assert forall|k: int| 0 <= k < s.len() implies 0 < best_cost((#[trigger] s[k]).lows)
        <= BITMAP_BYTES by {
        lemma_best_cost(s[k].lows);
        assert(s[k].lows.len() > 0);
    }
    if s.len() > 65536 {
        lemma_block_index(s, 65536);
    }
}

proof fn lemma_block_index(s: Seq<Block>, i: int)
    requires
        blocks_ok(s),
        0 <= i < s.len(),
    ensures
        i <= s[i].key,
    decreases i,
{
    if i > 0 {
        lemma_block_index(s, i - 1);
        assert(s[i - 1].key < s[i].key);
    }
}

#[verifier::rlimit(40)]
pub(crate) proof fn lemma_canonical_reads(b: Seq<u8>, s: Seq<Block>)
    requires
        blocks_ok(s),
        canonical(b, s),
    ensures
        frozen_ok(b),
        !inline_magic(b),
        frozen_set(b) == blocks_set(s),
        std_blocks(b) == s,
{
    let n = s.len() as int;
    let base = data_off_spec(n, any_form(s, CT_BITMAP));
    lemma_block_costs(s);
    lemma_blocks_len(s);
    lemma_set32(blocks_set(s));
    lemma_data_len(s, n);
    lemma_align_up(16 + 8 * n, 64);
    lemma_align_up(16 + 8 * n, 8);
    assert(header_of(b) == header_for(s));
    assert forall|j: int| 0 <= j < n implies #[trigger] std_payload_ok(b, j) && std_entry(b, j).key
        == s[j].key && std_lows(b, j) == s[j].lows && aligned_at(b, j) by {
        assert(placed(b, s, base, j));
        lemma_set16(s[j].lows);
        lemma_data_len(s, j);
        lemma_align_up(data_len(s, j), 64);
        lemma_align_up(data_len(s, j), 2);
        lemma_aligned(b, j);
    }
    lemma_std_from(b, s);
}

/// What a builder finished is no larger than either encoding of its blocks, nor, block by
/// block, than any form of it.
pub proof fn law_smallest(b: Seq<u8>, set: Set<u32>, s: Seq<Block>)
    requires
        finished(b, set),
        blocks_ok(s),
        blocks_set(s) == set,
    ensures
        b.len() <= standard_size(s),
        set.len() <= INLINE_MAX_COUNT ==> b.len() <= inline_size_spec(set.len() as int),
        forall|k: int|
            0 <= k < s.len() ==> {
                let lows = (#[trigger] s[k]).lows;
                &&& best_cost(lows) <= array_cost(lows)
                &&& best_cost(lows) <= run_cost(lows)
                &&& best_cost(lows) <= BITMAP_BYTES
            },
{
    let t = choose|t: Seq<Block>| #[trigger] blocks_of(t, set) && finished_as(b, t, set);
    law_blocks_unique(s, t);
    lemma_blocks_len(s);
    if inline_wins(s) {
        let vals = choose|vals: Seq<u32>|
            asc32(vals) && vals.to_set() == set && #[trigger] inline_exact(b, vals);
        crate::model::lemma_asc32_len(vals);
    }
    assert forall|k: int| 0 <= k < s.len() implies {
        let lows = (#[trigger] s[k]).lows;
        &&& best_cost(lows) <= array_cost(lows)
        &&& best_cost(lows) <= run_cost(lows)
        &&& best_cost(lows) <= BITMAP_BYTES
    } by {
        lemma_best_cost(s[k].lows);
    }
}

/// In a compact result, whatever is not stored as runs is as small as an array, and as a
/// bitmap.
pub proof fn law_compact_smallest(b: Seq<u8>, i: int)
    requires
        std_ok(b),
        compact(b),
        0 <= i < std_n(b),
        std_entry(b, i).typ != CT_RUN,
    ensures
        std_size(b, i) <= array_cost(std_lows(b, i)),
        std_size(b, i) <= BITMAP_BYTES,
{
    assert(std_payload_ok(b, i));
    let e = std_entry(b, i);
    lemma_payload_len(b, std_start(b, i), e.typ, e.cardinality as int);
}

/// Every container of `c` is the compact form of that of `a`.
spec fn compacted(a: Seq<u8>, c: Seq<u8>) -> bool {
    &&& std_n(a) == std_n(c)
    &&& forall|i: int| 0 <= i < std_n(a) ==> #[trigger] compacted_at(a, c, i)
}

/// Container `i` of `c` is the compact form of that of `a`: an array for a bitmap of few
/// enough values, else the same.
spec fn compacted_at(a: Seq<u8>, c: Seq<u8>, i: int) -> bool {
    if std_entry(a, i).typ == CT_BITMAP && std_lows(a, i).len() <= ARRAY_MAX_SIZE {
        std_entry(c, i).typ == CT_ARRAY && std_size(c, i) == 2 * std_lows(a, i).len()
    } else {
        std_entry(c, i).typ == std_entry(a, i).typ && std_size(c, i) == std_size(a, i)
    }
}

/// A multiple of 64 is one of 2 and of 8.
proof fn lemma_coarse(m: int)
    requires
        m % 64 == 0,
    ensures
        m % 2 == 0,
        m % 8 == 0,
{
}

/// The boundary of what lies further on is no nearer.
proof fn lemma_boundary(y: int, x: int, align: int)
    requires
        0 <= y <= x,
        0 < align,
    ensures
        0 <= align_up_spec(y, align) <= align_up_spec(x, align),
{
    lemma_align_up(x, align);
    lemma_align_up(y, align);
    lemma_align_up_least(y, align, align_up_spec(x, align));
}

/// Boundaries of the coarser kind, and of what lies further on, are no nearer.
#[verifier::spinoff_prover]
proof fn lemma_boundaries(y: int, x: int)
    requires
        0 <= y <= x,
    ensures
        0 <= align_up_spec(y, 2) <= align_up_spec(x, 2),
        0 <= align_up_spec(y, 64) <= align_up_spec(x, 64),
        align_up_spec(y, 2) <= align_up_spec(x, 64),
        align_up_spec(x, 8) <= align_up_spec(x, 64),
{
    lemma_boundary(y, x, 2);
    lemma_boundary(y, x, 64);
    lemma_align_up(x, 64);
    let far = align_up_spec(x, 64);
    lemma_coarse(far);
    lemma_align_up_least(y, 2, far);
    lemma_align_up_least(x, 8, far);
}

/// What container `j` of either form occupies.
proof fn lemma_compact_size(a: Seq<u8>, c: Seq<u8>, j: int)
    requires
        std_payload_ok(a, j),
        std_payload_ok(c, j),
        compacted_at(a, c, j),
    ensures
        0 <= std_size(c, j) <= std_size(a, j),
        form_align(std_entry(c, j).typ) == form_align(std_entry(a, j).typ) || form_align(
            std_entry(c, j).typ,
        ) == 2,
{
}

#[verifier::rlimit(40)]
proof fn lemma_compact_end(a: Seq<u8>, c: Seq<u8>, i: int)
    requires
        std_ok(a),
        std_ok(c),
        snug(a),
        snug(c),
        compacted(a, c),
        0 <= i <= std_n(a),
    ensures
        0 <= std_end(c, i) <= std_end(a, i),
    decreases i,
{
    if i > 0 {
        let j = i - 1;
        lemma_compact_end(a, c, j);
        assert(compacted_at(a, c, j));
        assert(behind(a, j) && behind(c, j));
        assert(std_payload_ok(a, j) && std_payload_ok(c, j));
        lemma_compact_size(a, c, j);
        lemma_boundaries(std_end(c, j), std_end(a, j));
    }
}

/// Both intents fold identically and differ only in how the result is serialized; the
/// compact one is never the longer.
#[verifier::rlimit(40)]
pub proof fn law_compact_shorter(arena: OpArena, a: Seq<u8>, c: Seq<u8>)
    requires
        std_ok(a),
        std_ok(c),
        tidy(a),
        tidy(c),
        snug(a),
        snug(c),
        arena.stored_fast(a),
        arena.stored_compact(c),
    ensures
        std_blocks(c) == std_blocks(a),
        c.len() <= a.len(),
{
    let n = std_n(a);
    assert(std_blocks(a).len() == std_blocks(c).len());
    assert forall|i: int| 0 <= i < n implies #[trigger] compacted_at(a, c, i) by {
        assert(std_blocks(a)[i] == arena.blocks()[i]);
        assert(std_entry(a, i).typ == arena.typ_at(i));
    }
    lemma_compact_end(a, c, n);
    if header_of(c).has_bitmap {
        let i = choose|i: int| 0 <= i < n && (#[trigger] std_entry(c, i)).typ == CT_BITMAP;
        assert(compacted_at(a, c, i));
        assert(std_entry(a, i).typ == CT_BITMAP);
    }
    lemma_boundaries(16 + 8 * n, 16 + 8 * n);
}

/// A set has no more maximal runs than runs that cover it.
proof fn lemma_fewest_runs(v: Seq<Run>)
    requires
        runs_ok(v),
    ensures
        run_starts(runs_set(v)).len() <= v.len(),
{
    let starts = Seq::new(v.len(), |i: int| v[i].start);
    let (s, t) = (run_starts(runs_set(v)), starts.to_set());
    assert forall|x: u16| s.contains(x) implies t.contains(x) by {
        let i = choose|i: int| 0 <= i < v.len() && (#[trigger] v[i]).has(x);
        if v[i].start < x {
            assert(v[i].has((x - 1) as u16));
        }
        assert(starts[i] == x);
    }
    starts.lemma_cardinality_of_set();
    lemma_set16(t);
    vstd::set_lib::lemma_len_subset(s, t);
}

/// No payload is smaller than the smallest form, and none that is no bitmap is of a block
/// that is smallest as one.
proof fn lemma_payload_cost(b: Seq<u8>, i: int)
    requires
        std_payload_ok(b, i),
        std_size(b, i) <= BITMAP_BYTES,
    ensures
        best_cost(std_lows(b, i)) <= std_size(b, i),
        best_form(std_lows(b, i)) == CT_BITMAP ==> std_entry(b, i).typ == CT_BITMAP,
{
    let e = std_entry(b, i);
    let s = std_lows(b, i);
    lemma_payload_len(b, std_start(b, i), e.typ, e.cardinality as int);
    lemma_best_cost(s);
    if e.typ == CT_RUN {
        lemma_fewest_runs(runs_at(b, std_start(b, i)));
    }
}

/// The payloads of the smallest encoding end no later.
proof fn lemma_smallest_end(f: Seq<u8>, i: int)
    requires
        std_ok(f),
        snug(f),
        slim(f),
        0 <= i <= std_n(f),
    ensures
        0 <= data_len(std_blocks(f), i) <= std_end(f, i),
    decreases i,
{
    if i > 0 {
        let j = i - 1;
        lemma_smallest_end(f, j);
        assert(behind(f, j) && std_payload_ok(f, j));
        assert(std_size(f, j) <= BITMAP_BYTES);
        lemma_payload_cost(f, j);
        lemma_best_cost(std_lows(f, j));
        assert(std_blocks(f)[j].lows == std_lows(f, j));
        lemma_boundaries(data_len(std_blocks(f), j), std_end(f, j));
    }
}

/// What is encoded for storage is never longer than an op-ready result of the same values:
/// each op's compact result is no longer than its fast one.
pub proof fn law_compact_never_longer(f: Seq<u8>, c: Seq<u8>, set: Set<u32>)
    requires
        !inline_magic(f),
        frozen_ok(f),
        tidy(f),
        snug(f),
        slim(f),
        frozen_set(f) == set,
        finished_standard(c, set),
    ensures
        c.len() <= f.len(),
{
    let s = std_blocks(f);
    let n = std_n(f);
    lemma_std(f);
    let t = choose|t: Seq<Block>| #[trigger] blocks_of(t, set) && canonical(c, t);
    law_blocks_unique(s, t);
    lemma_smallest_end(f, n);
    if any_form(s, CT_BITMAP) {
        let i = choose|i: int| 0 <= i < s.len() && best_form((#[trigger] s[i]).lows) == CT_BITMAP;
        assert(std_payload_ok(f, i) && std_size(f, i) <= BITMAP_BYTES);
        lemma_payload_cost(f, i);
        assert(std_entry(f, i).typ == CT_BITMAP);
    }
    lemma_boundaries(16 + 8 * n, 16 + 8 * n);
}

/// The bytes that a tree evaluates to are a function of its values: trees that stand for the
/// same set evaluate to the same bytes, and so do the compact ops.
pub proof fn law_same_bytes<'a, 'b>(e: BitmapExpr<'a>, f: BitmapExpr<'b>, b: Seq<u8>, c: Seq<u8>)
    requires
        e.set() == f.set(),
        finished_standard(b, e.set()),
        finished_standard(c, f.set()),
    ensures
        b == c,
{
    law_deterministic_standard(b, c, e.set());
}

// --- set operations -------------------------------------------------------------------------

/// The sets of views.
pub open spec fn view_sets(views: Seq<FrozenBitmapView>) -> Seq<Set<u32>> {
    Seq::new(views.len(), |i: int| views[i]@)
}

/// The flat operations on views are the operations on their sets, which the nodes of an
/// expression and the roaring comparators stand for too.
pub proof fn law_flat(views: &[FrozenBitmapView])
    ensures
        intersection_of(views) == op_set(Op::Intersect, view_sets(views@)),
        union_of(views) == op_set(Op::Union, view_sets(views@)),
        difference_of(views) == op_set(Op::Diff, view_sets(views@)),
{
    let sets = view_sets(views@);
    assert(forall|i: int| 0 <= i < sets.len() ==> #[trigger] sets[i] == views.set_at(i));
    assert forall|v: u32|
        intersection_of(views).contains(v) == op_set(Op::Intersect, sets).contains(v) by {
        if op_set(Op::Intersect, sets).contains(v) {
            assert forall|i: int| 0 <= i < views.count() implies (#[trigger] views.set_at(i)).contains(
                v,
            ) by {
                assert(sets[i].contains(v));
            }
        }
        if intersection_of(views).contains(v) {
            assert forall|i: int| 0 <= i < sets.len() implies (#[trigger] sets[i]).contains(v) by {
                assert(views.set_at(i).contains(v));
            }
        }
    }
    assert(intersection_of(views) =~= op_set(Op::Intersect, sets));
    assert forall|v: u32| union_of(views).contains(v) == op_set(Op::Union, sets).contains(v) by {
        if op_set(Op::Union, sets).contains(v) {
            let i = choose|i: int| 0 <= i < sets.len() && (#[trigger] sets[i]).contains(v);
            assert(views.set_at(i).contains(v));
        }
        if union_of(views).contains(v) {
            let i = choose|i: int|
                0 <= i < views.count() && (#[trigger] views.set_at(i)).contains(v);
            assert(sets[i].contains(v));
        }
    }
    assert(union_of(views) =~= op_set(Op::Union, sets));
    assert forall|v: u32| difference_of(views).contains(v) == op_set(Op::Diff, sets).contains(v) by {
        if op_set(Op::Diff, sets).contains(v) {
            assert(sets[0] == views.set_at(0));
            assert forall|i: int| 1 <= i < views.count() implies !(#[trigger] views.set_at(
                i,
            )).contains(v) by {
                assert(!sets[i].contains(v));
            }
        }
        if difference_of(views).contains(v) {
            assert(sets[0] == views.set_at(0));
            assert forall|i: int| 1 <= i < sets.len() implies !(#[trigger] sets[i]).contains(v) by {
                assert(!views.set_at(i).contains(v));
            }
        }
    }
    assert(difference_of(views) =~= op_set(Op::Diff, sets));
}

/// Degenerate inputs: an operation on nothing is empty, and on one set is that set.
pub proof fn law_degenerate(op: Op, s: Set<u32>)
    ensures
        op_set(op, Seq::empty()) == Set::<u32>::empty(),
        op_set(op, seq![s]) == s,
{
    let (none, one) = (Seq::<Set<u32>>::empty(), seq![s]);
    assert(op_set(op, none) =~= Set::<u32>::empty());
    assert(one[0] == s);
    assert(op_set(op, one) =~= s);
}

/// The order of the operands of an intersection or union does not matter, nor does that of
/// the sets taken off by a difference.
pub proof fn law_order(op: Op, sets: Seq<Set<u32>>, i: int, j: int)
    requires
        0 <= i < sets.len(),
        0 <= j < sets.len(),
        op == Op::Diff ==> i > 0 && j > 0,
    ensures
        op_set(op, sets.update(i, sets[j]).update(j, sets[i])) == op_set(op, sets),
{
    let t = sets.update(i, sets[j]).update(j, sets[i]);
    assert(t[i] == sets[j] && t[j] == sets[i]);
    assert(forall|k: int| 0 <= k < sets.len() && k != i && k != j ==> #[trigger] t[k] == sets[k]);
    assert forall|v: u32| op_set(op, t).contains(v) == op_set(op, sets).contains(v) by {
        match op {
            Op::Intersect => {
                if op_set(op, t).contains(v) {
                    assert forall|k: int| 0 <= k < sets.len() implies (#[trigger] sets[k]).contains(
                        v,
                    ) by {
                        assert(t[i].contains(v) && t[j].contains(v) && t[k].contains(v));
                    }
                }
                if op_set(op, sets).contains(v) {
                    assert forall|k: int| 0 <= k < t.len() implies (#[trigger] t[k]).contains(v) by {
                        assert(sets[i].contains(v) && sets[j].contains(v) && sets[k].contains(v));
                    }
                }
            },
            Op::Union => {
                if op_set(op, t).contains(v) {
                    let k = choose|k: int| 0 <= k < t.len() && (#[trigger] t[k]).contains(v);
                    assert(sets[i].contains(v) || sets[j].contains(v) || sets[k].contains(v));
                }
                if op_set(op, sets).contains(v) {
                    let k = choose|k: int| 0 <= k < sets.len() && (#[trigger] sets[k]).contains(v);
                    assert(t[i].contains(v) || t[j].contains(v) || t[k].contains(v));
                }
            },
            Op::Diff => {
                if op_set(op, t).contains(v) {
                    assert forall|k: int| 1 <= k < sets.len() implies !(#[trigger] sets[k]).contains(
                        v,
                    ) by {
                        assert(!t[i].contains(v) && !t[j].contains(v) && !t[k].contains(v));
                    }
                }
                if op_set(op, sets).contains(v) {
                    assert forall|k: int| 1 <= k < t.len() implies !(#[trigger] t[k]).contains(v) by {
                        assert(!sets[i].contains(v) && !sets[j].contains(v) && !sets[k].contains(v));
                    }
                }
            },
        }
    }
    assert(op_set(op, t) =~= op_set(op, sets));
}

/// A chain of the same operation is one N-way operation: a nested intersection or union may
/// be replaced by its operands.
pub proof fn law_flatten(
    op: Op,
    before: Seq<Set<u32>>,
    inner: Seq<Set<u32>>,
    after: Seq<Set<u32>>,
)
    requires
        op == Op::Intersect || op == Op::Union,
        inner.len() > 0,
    ensures
        op_set(op, before + seq![op_set(op, inner)] + after) == op_set(op, before + inner + after),
{
    let c = op_set(op, inner);
    let (x, y) = (before + seq![c] + after, before + inner + after);
    let (m, k) = (before.len() as int, inner.len() as int);
    assert(x[m] == c);
    assert(forall|i: int| 0 <= i < m ==> #[trigger] x[i] == before[i] && y[i] == before[i]);
    assert(forall|i: int| 0 <= i < k ==> #[trigger] inner[i] == y[m + i]);
    assert(forall|i: int|
        0 <= i < after.len() ==> #[trigger] after[i] == x[m + 1 + i] && after[i] == y[m + k + i]);
    assert forall|v: u32| op_set(op, x).contains(v) == op_set(op, y).contains(v) by {
        if op == Op::Intersect {
            if op_set(op, x).contains(v) {
                assert(x[m].contains(v));
                assert forall|i: int| 0 <= i < y.len() implies (#[trigger] y[i]).contains(v) by {
                    if i < m {
                        assert(x[i].contains(v));
                    } else if i < m + k {
                        assert(inner[i - m].contains(v));
                    } else {
                        assert(after[i - m - k] == x[m + 1 + (i - m - k)]);
                    }
                }
            }
            if op_set(op, y).contains(v) {
                assert forall|i: int| 0 <= i < k implies (#[trigger] inner[i]).contains(v) by {
                    assert(y[m + i].contains(v));
                }
                assert forall|i: int| 0 <= i < x.len() implies (#[trigger] x[i]).contains(v) by {
                    if i < m {
                        assert(y[i].contains(v));
                    } else if i > m {
                        assert(after[i - m - 1] == y[m + k + (i - m - 1)]);
                    }
                }
            }
        } else {
            if op_set(op, x).contains(v) {
                let i = choose|i: int| 0 <= i < x.len() && (#[trigger] x[i]).contains(v);
                if i < m {
                    assert(y[i].contains(v));
                } else if i == m {
                    let j = choose|j: int| 0 <= j < k && (#[trigger] inner[j]).contains(v);
                    assert(y[m + j].contains(v));
                } else {
                    assert(after[i - m - 1] == y[m + k + (i - m - 1)]);
                }
            }
            if op_set(op, y).contains(v) {
                let i = choose|i: int| 0 <= i < y.len() && (#[trigger] y[i]).contains(v);
                if i < m {
                    assert(x[i].contains(v));
                } else if i < m + k {
                    assert(inner[i - m].contains(v));
                    assert(x[m].contains(v));
                } else {
                    assert(after[i - m - k] == x[m + 1 + (i - m - k)]);
                }
            }
        }
    }
    assert(op_set(op, x) =~= op_set(op, y));
}

/// An empty operand empties an intersection, and an empty first operand a difference, so the
/// operands after it need not be evaluated.
pub proof fn law_short_circuit(sets: Seq<Set<u32>>, i: int)
    requires
        0 <= i < sets.len(),
        sets[i] == Set::<u32>::empty(),
    ensures
        op_set(Op::Intersect, sets) == Set::<u32>::empty(),
        i == 0 ==> op_set(Op::Diff, sets) == Set::<u32>::empty(),
{
    assert forall|v: u32| !op_set(Op::Intersect, sets).contains(v) by {
        assert(!sets[i].contains(v));
    }
    assert(op_set(Op::Intersect, sets) =~= Set::<u32>::empty());
    if i == 0 {
        assert(op_set(Op::Diff, sets) =~= Set::<u32>::empty());
    }
}

/// Hole-punching: an intersection may drop from every operand, beforehand, the blocks under
/// keys that some operand lacks.
pub proof fn law_hole_punch(sets: Seq<Set<u32>>, live: Set<u16>)
    requires
        forall|key: u16|
            !(#[trigger] live.contains(key)) ==> exists|i: int|
                0 <= i < sets.len() && under(#[trigger] sets[i], key).len() == 0,
    ensures
        op_set(Op::Intersect, masked_sets(sets, live)) == op_set(Op::Intersect, sets),
{
    let t = op_set(Op::Intersect, sets);
    lemma_masked_op(Op::Intersect, sets, live);
    assert forall|v: u32| masked(t, live).contains(v) == t.contains(v) by {
        if t.contains(v) && !live.contains(hi(v)) {
            let i = choose|i: int|
                0 <= i < sets.len() && under(#[trigger] sets[i], hi(v)).len() == 0;
            assert(sets[i].contains(v));
            lemma_split(v);
            assert(under(sets[i], hi(v)).contains(lo(v)));
            lemma_set16(under(sets[i], hi(v)));
        }
    }
    assert(masked(t, live) =~= t);
}

} // verus!
