//! What the generated trees are for: which ops they hold, how wide and deep they are, and
//! what the shape families stand for.
use vstd::prelude::*;

use crate::corpus::{
    and_chain, budget, corpus, cuts, diff_chain, diffs, family, family_all, grown, grown_all, hung, index,
    law_pillar, law_shaped,
    lemma_next_cut, max_width, minus, next_cut, pick, picks, pillar, pillar_all, pillars, profiled, profiled_all, raised, rnd, shaped, shares,
    width_range, Profile,
};
use crate::treegen::{all_leaves, deepest, lemma_each, lemma_list, values, Tree};
use crate::workload::{draw, lemma_state_after, next_state, state_after};

verus! {

// --- ops and widths -----------------------------------------------------------------------

/// Which ops a tree may hold.
pub struct Ops {
    pub and: bool,
    pub or: bool,
    pub diff: bool,
}

/// Every inner node is one of the ops, and every intersection and union has `lo` to `hi`
/// children.
pub open spec fn made_of(t: Tree, ops: Ops, lo: int, hi: int) -> bool
    decreases t,
{
    match t {
        Tree::Leaf(_) => true,
        Tree::And(ts) => ops.and && lo <= ts.len() <= hi && all_made_of(ts, ops, lo, hi),
        Tree::Or(ts) => ops.or && lo <= ts.len() <= hi && all_made_of(ts, ops, lo, hi),
        Tree::Diff(a, b) => ops.diff && made_of(*a, ops, lo, hi) && made_of(*b, ops, lo, hi),
    }
}

/// So is every node of every tree.
pub open spec fn all_made_of(ts: Seq<Tree>, ops: Ops, lo: int, hi: int) -> bool
    decreases ts,
{
    ts.len() == 0 || all_made_of(ts.drop_last(), ops, lo, hi) && made_of(ts.last(), ops, lo, hi)
}

proof fn lemma_all_made_of(ts: Seq<Tree>, ops: Ops, lo: int, hi: int)
    ensures
        all_made_of(ts, ops, lo, hi) <==> forall|i: int|
            0 <= i < ts.len() ==> made_of(#[trigger] ts[i], ops, lo, hi),
    decreases ts.len(),
{
    if ts.len() > 0 {
        let d = ts.drop_last();
        lemma_all_made_of(d, ops, lo, hi);
        assert(forall|i: int| 0 <= i < d.len() ==> #[trigger] d[i] == ts[i]);
        if all_made_of(ts, ops, lo, hi) {
            assert forall|i: int| 0 <= i < ts.len() implies made_of(#[trigger] ts[i], ops, lo, hi) by {
                if i < d.len() {
                    assert(made_of(d[i], ops, lo, hi));
                }
            }
        }
        if forall|i: int| 0 <= i < ts.len() ==> made_of(#[trigger] ts[i], ops, lo, hi) {
            assert forall|i: int| 0 <= i < d.len() implies made_of(#[trigger] d[i], ops, lo, hi) by {
                assert(made_of(ts[i], ops, lo, hi));
            }
            assert(made_of(ts[ts.len() - 1], ops, lo, hi));
        }
    }
}

// --- profiled trees -----------------------------------------------------------------------

/// The ops that the shares of a profile leave room for.
pub open spec fn shares_of(prof: Profile) -> Ops {
    Ops { and: prof.diff_pct + prof.or_pct < 100, or: prof.or_pct > 0, diff: prof.diff_pct > 0 }
}

/// The most children of a node of a profiled tree.
pub open spec fn widest(prof: Profile, budget: usize) -> int {
    if prof.wide && budget > 8 {
        budget as int
    } else {
        8
    }
}

/// Cuts between `prev` and the budget.
spec fn inner_cuts(cuts: Seq<usize>, prev: int, budget: int) -> nat
    decreases cuts.len(),
{
    if cuts.len() == 0 {
        0
    } else {
        inner_cuts(cuts.drop_last(), prev, budget) + if prev < cuts.last() < budget {
            1nat
        } else {
            0
        }
    }
}

proof fn lemma_inner_cuts(cuts: Seq<usize>, prev: int, budget: int)
    requires
        prev < budget,
    ensures
        inner_cuts(cuts, prev, budget) <= cuts.len(),
        ({
            let c = next_cut(cuts, prev, budget);
            &&& inner_cuts(cuts, c, budget) <= inner_cuts(cuts, prev, budget)
            &&& c < budget ==> inner_cuts(cuts, c, budget) < inner_cuts(cuts, prev, budget)
        }),
    decreases cuts.len(),
{
    lemma_next_cut(cuts, prev, budget);
    if cuts.len() > 0 {
        let d = cuts.drop_last();
        lemma_inner_cuts(d, prev, budget);
        lemma_next_cut(d, prev, budget);
        lemma_inner_mono(d, next_cut(cuts, prev, budget), next_cut(d, prev, budget), budget);
        lemma_inner_mono(d, prev, next_cut(cuts, prev, budget), budget);
    }
}

proof fn lemma_inner_mono(cuts: Seq<usize>, p: int, q: int, budget: int)
    requires
        p <= q,
    ensures
        inner_cuts(cuts, q, budget) <= inner_cuts(cuts, p, budget),
    decreases cuts.len(),
{
    if cuts.len() > 0 {
        lemma_inner_mono(cuts.drop_last(), p, q, budget);
    }
}

/// The shares of a profile decide the ops of its trees: where differences and unions take all
/// of it there is no intersection, and where either takes none of it there is none of that
/// op. A tree that is all leaves is a leaf. No intersection or union has fewer than two
/// children, nor, unless the profile is wide, more than eight.
pub proof fn law_profile(s: u64, budget: usize, depth: nat, prof: Profile, n: usize)
    requires
        n > 0,
    ensures
        made_of(shaped(s, budget, depth, prof, n).0, shares_of(prof), 2, widest(prof, budget)),
        prof.leaf_pct >= 100 ==> shaped(s, budget, depth, prof, n).0 is Leaf,
    decreases depth, 0nat,
{
    let (ops, hi) = (shares_of(prof), widest(prof, budget));
    let s1 = next_state(s);
    let s2 = next_state(s1);
    let r = rnd(s1) % 100;
    if budget <= 1 || depth == 0 || rnd(s) % 100 < prof.leaf_pct {
    } else if r < prof.diff_pct {
        let l = (1 + index(rnd(s2), (budget - 1) as usize)) as usize;
        let a = shaped(next_state(s2), l, (depth - 1) as nat, prof, n);
        let b = shaped(a.1, (budget - l) as usize, (depth - 1) as nat, prof, n);
        law_profile(next_state(s2), l, (depth - 1) as nat, prof, n);
        law_profile(a.1, (budget - l) as usize, (depth - 1) as nat, prof, n);
        lemma_wider(a.0, ops, widest(prof, l), hi);
        lemma_wider(b.0, ops, widest(prof, (budget - l) as usize), hi);
    } else {
        let s3 = if prof.wide {
            next_state(s2)
        } else {
            s2
        };
        let range = width_range(max_width(s2, budget as nat, prof), budget as nat);
        let w = (2 + index(rnd(s3), range as usize)) as nat;
        let s4 = next_state(s3);
        let (s5, cs) = (state_after(s4, (w - 1) as nat), cuts(s4, (w - 1) as nat, budget));
        lemma_shares_made(s5, cs, 0, budget, budget, (depth - 1) as nat, prof, n);
        lemma_inner_cuts(cs, 0, budget as int);
        let ts = shares(s5, cs, 0, budget, (depth - 1) as nat, prof, n).0;
        lemma_all_made_of(ts, ops, 2, hi);
        if ts.len() == 1 {
            assert(made_of(ts[0], ops, 2, hi));
        }
    }
}

proof fn lemma_wider(t: Tree, ops: Ops, lo: int, hi: int)
    requires
        made_of(t, ops, 2, lo),
        lo <= hi,
    ensures
        made_of(t, ops, 2, hi),
    decreases t,
{
    match t {
        Tree::Leaf(_) => {},
        Tree::And(ts) => {
            lemma_all_wider(ts, ops, lo, hi);
        },
        Tree::Or(ts) => {
            lemma_all_wider(ts, ops, lo, hi);
        },
        Tree::Diff(a, b) => {
            lemma_wider(*a, ops, lo, hi);
            lemma_wider(*b, ops, lo, hi);
        },
    }
}

proof fn lemma_all_wider(ts: Seq<Tree>, ops: Ops, lo: int, hi: int)
    requires
        all_made_of(ts, ops, 2, lo),
        lo <= hi,
    ensures
        all_made_of(ts, ops, 2, hi),
    decreases ts,
{
    if ts.len() > 0 {
        lemma_all_wider(ts.drop_last(), ops, lo, hi);
        lemma_wider(ts.last(), ops, lo, hi);
    }
}

proof fn lemma_shares_made(
    s: u64,
    cuts: Seq<usize>,
    prev: usize,
    budget: usize,
    whole: usize,
    depth: nat,
    prof: Profile,
    n: usize,
)
    requires
        n > 0,
        prev <= budget <= whole,
    ensures
        ({
            let ts = shares(s, cuts, prev, budget, depth, prof, n).0;
            &&& all_made_of(ts, shares_of(prof), 2, widest(prof, whole))
            &&& prev < budget ==> 1 <= ts.len() <= inner_cuts(cuts, prev as int, budget as int) + 1
            &&& prev == budget ==> ts.len() == 0
        }),
    decreases depth, budget - prev,
{
    if prev < budget {
        lemma_next_cut(cuts, prev as int, budget as int);
        lemma_inner_cuts(cuts, prev as int, budget as int);
        let cut = next_cut(cuts, prev as int, budget as int) as usize;
        let (ops, hi) = (shares_of(prof), widest(prof, whole));
        let (t, s1) = shaped(s, (cut - prev) as usize, depth, prof, n);
        law_profile(s, (cut - prev) as usize, depth, prof, n);
        lemma_wider(t, ops, widest(prof, (cut - prev) as usize), hi);
        lemma_shares_made(s1, cuts, cut, budget, whole, depth, prof, n);
        let ts = shares(s1, cuts, cut, budget, depth, prof, n).0;
        let all = seq![t] + ts;
        lemma_all_made_of(ts, ops, 2, hi);
        lemma_all_made_of(all, ops, 2, hi);
        assert forall|i: int| 0 <= i < all.len() implies made_of(#[trigger] all[i], ops, 2, hi) by {
            if i > 0 {
                assert(all[i] == ts[i - 1]);
            }
        }
    }
}

/// The root of a profiled tree follows its first two draws. Out of leaves or levels it is the
/// leaf of its first draw. Else it is the leaf of the second in the first `leaf_pct` of a
/// hundred of the first, and past those a difference in the first `diff_pct` of the second.
/// The third draw splits the leaves of a difference over its two sides, one at least on each.
pub proof fn law_profile_root(s: u64, budget: usize, depth: nat, prof: Profile, n: usize)
    requires
        n > 0,
    ensures
        ({
            let t = shaped(s, budget, depth, prof, n).0;
            if budget <= 1 || depth == 0 {
                t == Tree::Leaf((draw(s, 0) as usize) % n)
            } else if draw(s, 0) % 100 < prof.leaf_pct {
                t == Tree::Leaf((draw(s, 1) as usize) % n)
            } else {
                draw(s, 1) % 100 < prof.diff_pct ==> match t {
                    Tree::Diff(a, b) => {
                        let l = 1 + (draw(s, 2) as usize) as int % (budget - 1);
                        &&& 1 <= a.leaves() <= l
                        &&& 1 <= b.leaves() <= budget - l
                        &&& a.depth() <= depth
                        &&& b.depth() <= depth
                        &&& l == 1 || depth == 1 ==> *a is Leaf
                        &&& l == budget - 1 || depth == 1 ==> *b is Leaf
                    },
                    _ => false,
                }
            }
        }),
{
    reveal_with_fuel(state_after, 4);
    let s1 = next_state(s);
    let s2 = next_state(s1);
    assert(draw(s, 0) == rnd(s) && draw(s, 1) == rnd(s1) && draw(s, 2) == rnd(s2));
    if budget > 1 && depth > 0 && rnd(s) % 100 >= prof.leaf_pct && rnd(s1) % 100 < prof.diff_pct {
        let l = (1 + index(rnd(s2), (budget - 1) as usize)) as usize;
        let a = shaped(next_state(s2), l, (depth - 1) as nat, prof, n);
        law_shaped(next_state(s2), l, (depth - 1) as nat, prof, n);
        law_shaped(a.1, (budget - l) as usize, (depth - 1) as nat, prof, n);
    }
}

/// The cuts below the budget among draws `from` up to `to`.
pub open spec fn cut_set(s: u64, from: nat, to: nat, budget: usize) -> Set<int> {
    Set::new(
        |c: int|
            c < budget && exists|j: nat|
                from <= j < to && c == 1 + (#[trigger] draw(s, j) as usize) % budget,
    )
}

/// Cuts past `prev` and below the budget.
spec fn past_cuts(cuts: Seq<usize>, prev: int, budget: int) -> Set<int> {
    Set::new(|c: int| prev < c < budget && exists|j: int| 0 <= j < cuts.len() && #[trigger] cuts[j] == c)
}

proof fn lemma_next_is_cut(cuts: Seq<usize>, prev: int, budget: int)
    requires
        prev < budget,
    ensures
        ({
            let c = next_cut(cuts, prev, budget);
            &&& c < budget ==> exists|j: int| 0 <= j < cuts.len() && #[trigger] cuts[j] == c
            &&& forall|j: int| 0 <= j < cuts.len() && prev < #[trigger] cuts[j] ==> c <= cuts[j]
        }),
    decreases cuts.len(),
{
    if cuts.len() > 0 {
        let d = cuts.drop_last();
        lemma_next_is_cut(d, prev, budget);
        let (m, c) = (next_cut(d, prev, budget), next_cut(cuts, prev, budget));
        if c < budget {
            if c == m {
                let j = choose|j: int| 0 <= j < d.len() && #[trigger] d[j] == m;
                assert(cuts[j] == c);
            } else {
                assert(cuts[cuts.len() - 1] == c);
            }
        }
        assert forall|j: int| 0 <= j < cuts.len() && prev < #[trigger] cuts[j] implies c <= cuts[j] by {
            if j < d.len() {
                assert(d[j] == cuts[j]);
            }
        }
    }
}

proof fn lemma_past_finite(cuts: Seq<usize>, prev: int, budget: int)
    requires
        0 <= prev,
    ensures
        past_cuts(cuts, prev, budget).finite(),
{
    let all = Set::new(|c: int| 0 <= c < budget);
    if budget >= 0 {
        vstd::set_lib::lemma_int_range(0, budget);
        assert(all =~= vstd::set_lib::set_int_range(0, budget));
    } else {
        assert(all =~= Set::<int>::empty());
    }
    vstd::set_lib::lemma_len_subset(past_cuts(cuts, prev, budget), all);
}

/// There is a share for each cut and one more.
proof fn lemma_share_count(
    s: u64,
    cuts: Seq<usize>,
    prev: usize,
    budget: usize,
    depth: nat,
    prof: Profile,
    n: usize,
)
    requires
        prev < budget,
    ensures
        shares(s, cuts, prev, budget, depth, prof, n).0.len() == past_cuts(
            cuts,
            prev as int,
            budget as int,
        ).len() + 1,
    decreases budget - prev,
{
    let (p, b) = (prev as int, budget as int);
    lemma_next_cut(cuts, p, b);
    lemma_next_is_cut(cuts, p, b);
    lemma_past_finite(cuts, p, b);
    let cut = next_cut(cuts, p, b);
    let (t, s1) = shaped(s, (cut - p) as usize, depth, prof, n);
    if cut < b {
        lemma_share_count(s1, cuts, cut as usize, budget, depth, prof, n);
        lemma_past_finite(cuts, cut, b);
        let (x, y) = (past_cuts(cuts, p, b), past_cuts(cuts, cut, b));
        assert(y.insert(cut) =~= x) by {
            assert forall|c: int| x.contains(c) implies y.insert(cut).contains(c) by {
                let j = choose|j: int| 0 <= j < cuts.len() && #[trigger] cuts[j] == c;
                assert(cut <= cuts[j]);
            }
        }
        assert(!y.contains(cut));
    } else {
        assert(past_cuts(cuts, p, b) =~= Set::<int>::empty()) by {
            assert forall|c: int| !past_cuts(cuts, p, b).contains(c) by {
                if past_cuts(cuts, p, b).contains(c) {
                    let j = choose|j: int| 0 <= j < cuts.len() && #[trigger] cuts[j] == c;
                    assert(cut <= cuts[j]);
                }
            }
        }
        assert(shares(s1, cuts, budget, budget, depth, prof, n).0.len() == 0);
    }
}

/// The most children that a node may draw: eight, or the whole budget for one in eight nodes
/// of a wide profile, but no more than the budget.
pub open spec fn drawn_width(s: u64, budget: usize, prof: Profile) -> int {
    let most: int = if prof.wide && draw(s, 2) % 8 == 0 {
        budget as int
    } else {
        8
    };
    if most < budget {
        most
    } else {
        budget as int
    }
}

/// A node that is neither a leaf nor a difference draws two children at least, and draws as
/// many cuts as it has children but one. Each cut below the budget that was drawn, once or
/// more, parts two of its children. So where there is one it is a union, or past the share of
/// unions an intersection, of one child more than there are such cuts.
pub proof fn law_children(s: u64, budget: usize, depth: nat, prof: Profile, n: usize)
    requires
        n > 0,
        budget > 1,
        depth > 0,
        draw(s, 0) % 100 >= prof.leaf_pct,
        draw(s, 1) % 100 >= prof.diff_pct,
    ensures
        ({
            let from: nat = if prof.wide {
                4
            } else {
                3
            };
            let w = 2 + (draw(s, (from - 1) as nat) as usize) as int % (drawn_width(s, budget, prof)
                - 1);
            let at = cut_set(s, from, (from + w - 1) as nat, budget);
            let t = shaped(s, budget, depth, prof, n).0;
            at.len() > 0 ==> match t {
                Tree::Or(ts) => draw(s, 1) % 100 < prof.diff_pct + prof.or_pct && ts.len() == at.len()
                    + 1,
                Tree::And(ts) => draw(s, 1) % 100 >= prof.diff_pct + prof.or_pct && ts.len()
                    == at.len() + 1,
                _ => false,
            }
        }),
{
    reveal_with_fuel(state_after, 5);
    let s1 = next_state(s);
    let s2 = next_state(s1);
    assert(draw(s, 0) == rnd(s) && draw(s, 1) == rnd(s1) && draw(s, 2) == rnd(s2));
    let s3 = if prof.wide {
        next_state(s2)
    } else {
        s2
    };
    let from: nat = if prof.wide {
        4
    } else {
        3
    };
    assert(s3 == state_after(s, (from - 1) as nat));
    assert(rnd(s3) == draw(s, (from - 1) as nat));
    let range = width_range(max_width(s2, budget as nat, prof), budget as nat);
    assert(range == drawn_width(s, budget, prof) - 1);
    let w = (2 + index(rnd(s3), range as usize)) as nat;
    let s4 = next_state(s3);
    assert(s4 == state_after(s, from));
    let cs = cuts(s4, (w - 1) as nat, budget);
    let s5 = state_after(s4, (w - 1) as nat);
    lemma_share_count(s5, cs, 0, budget, (depth - 1) as nat, prof, n);
    let at = cut_set(s, from, (from + w - 1) as nat, budget);
    assert(past_cuts(cs, 0, budget as int) =~= at) by {
        assert forall|c: int| past_cuts(cs, 0, budget as int).contains(c) implies at.contains(c) by {
            let j = choose|j: int| 0 <= j < cs.len() && #[trigger] cs[j] == c;
            lemma_state_after(s, from, (j + 1) as nat);
            assert(draw(s4, j as nat) == draw(s, (from + j) as nat));
        }
        assert forall|c: int| at.contains(c) implies past_cuts(cs, 0, budget as int).contains(c) by {
            let j = choose|j: nat|
                from <= j < from + w - 1 && c == 1 + (#[trigger] draw(s, j) as usize) % budget;
            lemma_state_after(s, from, (j - from + 1) as nat);
            assert(draw(s4, (j - from) as nat) == draw(s, j));
            assert(cs[j - from] == c);
        }
    }
}

// --- budgeted trees -----------------------------------------------------------------------

/// The children of a node share its budget: each of them is a leaf where its share is one,
/// more than a leaf where it is more, and never past twice its share.
pub open spec fn parted(ts: Seq<Tree>, budget: nat) -> bool {
    forall|i: int|
        0 <= i < ts.len() ==> {
            let per = budget / ts.len();
            &&& (#[trigger] ts[i] is Leaf <==> per <= 1)
            &&& ts[i].leaves() <= (if per <= 1 {
                1
            } else {
                2 * per
            })
        }
}

/// A tree of more than a leaf is a difference for every fifth value of its first draw, an
/// intersection for the even ones of the rest, and a union for the odd ones. Intersections
/// and unions have two to four children each, as the second draw says. There are no more
/// leaves than twice the budget, and the children share it evenly.
pub proof fn law_grown_ops(s: u64, budget: nat, n: usize)
    requires
        n > 0,
    ensures
        budget <= 1 ==> grown(s, budget, n).0 is Leaf,
        budget > 1 ==> (grown(s, budget, n).0 is Diff <==> draw(s, 0) % 5 == 0),
        budget > 1 ==> (grown(s, budget, n).0 is And <==> draw(s, 0) % 5 == 2 || draw(s, 0) % 5 == 4),
        budget > 1 ==> (grown(s, budget, n).0 is Or <==> draw(s, 0) % 5 == 1 || draw(s, 0) % 5 == 3),
        match grown(s, budget, n).0 {
            Tree::Leaf(i) => budget <= 1 && i == (draw(s, 0) as usize) % n,
            Tree::And(ts) => ts.len() == 2 + draw(s, 1) % 3 && parted(ts, budget),
            Tree::Or(ts) => ts.len() == 2 + draw(s, 1) % 3 && parted(ts, budget),
            Tree::Diff(a, b) => parted(seq![*a, *b], budget),
        },
        made_of(grown(s, budget, n).0, (Ops { and: true, or: true, diff: true }), 2, 4),
        1 <= grown(s, budget, n).0.leaves() <= (if budget <= 1 {
            1
        } else {
            2 * budget
        }),
    decreases budget, 0nat,
{
    let ops = Ops { and: true, or: true, diff: true };
    reveal_with_fuel(state_after, 2);
    if budget > 1 {
        let s1 = next_state(s);
        if rnd(s) % 5 == 0 {
            law_grown_ops(s1, budget / 2, n);
            law_grown_ops(grown(s1, budget / 2, n).1, budget / 2, n);
            let (a, s2) = grown(s1, budget / 2, n);
            let b = grown(s2, budget / 2, n).0;
            let both = seq![a, b];
            assert(both.len() == 2);
            assert forall|i: int| 0 <= i < both.len() implies {
                let per = budget / both.len();
                &&& (#[trigger] both[i] is Leaf <==> per <= 1)
                &&& both[i].leaves() <= (if per <= 1 {
                    1
                } else {
                    2 * per
                })
            } by {
                assert(both[i] == a || both[i] == b);
            }
            assert(parted(both, budget));
        } else {
            let k = 2 + (rnd(s1) % 3) as nat;
            assert(budget / k <= budget / 2) by (nonlinear_arith)
                requires
                    2 <= k,
            ;
            let per = if budget / k > 1 {
                budget / k
            } else {
                1
            };
            lemma_grown_made(next_state(s1), k, per, n);
            let ts = grown_all(next_state(s1), k, per, n).0;
            assert(draw(s, 1) == rnd(s1));
            assert(ts.len() == k);
            assert(parted(ts, budget));
            lemma_all_made_of(ts, ops, 2, 4);
            assert(k * (2 * per) <= 2 * budget || per == 1) by (nonlinear_arith)
                requires
                    k >= 2,
                    per == 1 || per == budget / k,
            ;
            assert(per == 1 ==> k * per == k) by (nonlinear_arith);
        }
    }
}

proof fn lemma_grown_made(s: u64, k: nat, per: nat, n: usize)
    requires
        n > 0,
        per >= 1,
    ensures
        ({
            let ts = grown_all(s, k, per, n).0;
            &&& ts.len() == k
            &&& forall|i: int|
                0 <= i < k ==> {
                    &&& (#[trigger] ts[i] is Leaf <==> per <= 1)
                    &&& ts[i].leaves() <= (if per <= 1 {
                        1
                    } else {
                        2 * per
                    })
                }
            &&& all_made_of(ts, (Ops { and: true, or: true, diff: true }), 2, 4)
            &&& k <= all_leaves(ts) <= k * (if per <= 1 {
                1
            } else {
                2 * per
            })
        }),
    decreases per, k + 1,
{
    if k > 0 {
        lemma_grown_made(s, (k - 1) as nat, per, n);
        let (ts, s1) = grown_all(s, (k - 1) as nat, per, n);
        law_grown_ops(s1, per, n);
        assert(ts.push(grown(s1, per, n).0).drop_last() =~= ts);
        let m: nat = if per <= 1 {
            1
        } else {
            2 * per
        };
        assert((k - 1) * m + m == k * m) by (nonlinear_arith);
    } else {
        let m: nat = if per <= 1 {
            1
        } else {
            2 * per
        };
        assert(0 * m == 0) by (nonlinear_arith);
    }
}

// --- pillars ------------------------------------------------------------------------------

/// The draws among the first `m` that fall on level `k` of fourteen.
pub open spec fn falls(s: u64, m: nat, k: int) -> Set<int> {
    Set::new(|j: int| 0 <= j < m && (draw(s, j as nat) as usize) % 14 == k)
}

/// Each of the fourteen levels of a pillar hangs one leaf, and one more for each draw that
/// falls on it.
pub proof fn law_hung(s: u64, m: nat, k: int)
    requires
        m <= 85,
        0 <= k < 14,
    ensures
        hung(s, m).len() == 14,
        hung(s, m)[k] == 1 + falls(s, m, k).len(),
        falls(s, m, k).len() <= m,
        falls(s, m, k).finite(),
    decreases m,
{
    if m == 0 {
        assert(falls(s, 0, k) =~= Set::<int>::empty());
    } else {
        let p = (m - 1) as nat;
        law_hung(s, p, k);
        let x = falls(s, p, k);
        assert(!x.contains(p as int));
        if (draw(s, p) as usize) % 14 == k {
            assert(falls(s, m, k) =~= x.insert(p as int));
        } else {
            assert(falls(s, m, k) =~= x);
        }
    }
}

/// A list of `m` leaves and one tree among them: the tree stands at `at`, and the leaves
/// around it are those of the draws from the second on, in order.
pub open spec fn hung_among(ts: Seq<Tree>, s: u64, t: Tree, m: nat, n: usize) -> bool {
    let at = (draw(s, m + 1) as usize) as int % (m as int + 1);
    &&& ts.len() == m + 1
    &&& ts[at] == t
    &&& forall|i: int|
        0 <= i < m ==> (if i < at {
            ts[i]
        } else {
            ts[i + 1]
        }) == Tree::Leaf((#[trigger] draw(s, (i + 1) as nat) as usize) % n)
}

/// A level of a pillar is a difference for a fifth of its draws where it hangs one leaf, the
/// tree below on the left for the even draws; else an intersection up to six tenths, and a
/// union above. It holds the tree below once, among `m` drawn leaves.
pub proof fn law_level(s: u64, t: Tree, m: nat, n: usize)
    requires
        n > 0,
        1 <= m < usize::MAX,
    ensures
        ({
            let (x, r) = (raised(s, t, m, n).0, draw(s, 0) % 100);
            let one = Tree::Leaf((draw(s, 1) as usize) % n);
            &&& x is Diff <==> r < 20 && m == 1
            &&& x is And <==> !(r < 20 && m == 1) && r < 60
            &&& x is Or <==> !(r < 20 && m == 1) && r >= 60
            &&& match x {
                Tree::Diff(a, b) => if draw(s, 2) % 2 == 0 {
                    *a == t && *b == one
                } else {
                    *a == one && *b == t
                },
                Tree::And(ts) => hung_among(ts, s, t, m, n),
                Tree::Or(ts) => hung_among(ts, s, t, m, n),
                Tree::Leaf(_) => false,
            }
        }),
{
    reveal_with_fuel(state_after, 4);
    let s1 = next_state(s);
    let s2 = state_after(s1, m);
    let (ls, at) = (picks(s1, m, n), index(rnd(s2), (m + 1) as usize) as int);
    let ts = ls.insert(at, t);
    lemma_state_after(s, 1, m);
    lemma_state_after(s, 1, m + 1);
    assert(state_after(s, 1) == s1);
    assert(draw(s, m + 1) == rnd(s2));
    assert(draw(s, 1) == rnd(s1) && draw(s, 2) == rnd(next_state(s1)));
    assert(0 <= at <= ls.len());
    assert(ts[at] == t);
    assert forall|i: int| 0 <= i < m implies (if i < at {
        ts[i]
    } else {
        ts[i + 1]
    }) == Tree::Leaf((#[trigger] draw(s, (i + 1) as nat) as usize) % n) by {
        lemma_state_after(s, 1, (i + 1) as nat);
        lemma_state_after(s, 1, i as nat);
        assert(draw(s1, i as nat) == draw(s, (i + 1) as nat));
        assert(ls[i] == Tree::Leaf((draw(s1, i as nat) as usize) % n));
    }
    assert(hung_among(ts, s, t, m, n));
}

/// A pillar has 100 leaves over 15 levels.
pub proof fn law_pillar_size(s: u64, n: usize)
    requires
        n > 0,
    ensures
        pillar(s, n).0.leaves() == 100,
        pillar(s, n).0.depth() == 15,
{
    law_pillar(s, n);
}

// --- the corpus ---------------------------------------------------------------------------

/// Half of the budgets are up to ten leaves, the next three tenths ten to forty, and the rest
/// forty to a hundred; one draw after the other they take each of these in turn.
pub proof fn law_budget(c: u64, x: u64)
    requires
        c < 10,
    ensures
        c <= 4 ==> 2 <= budget(c, x) <= 10,
        5 <= c <= 7 ==> 10 <= budget(c, x) <= 40,
        8 <= c ==> 40 <= budget(c, x) <= 100,
        x < 0xFFFF_FFFF ==> budget(c, (x + 1) as u64) == (if c <= 4 && budget(c, x) == 10 {
            2
        } else if 5 <= c <= 7 && budget(c, x) == 40 {
            10
        } else if 8 <= c && budget(c, x) == 100 {
            40
        } else {
            budget(c, x) + 1
        }),
{
    if x < 0xFFFF_FFFF {
        let y = (x + 1) as u64;
        assert(x as usize == x && y as usize == x + 1);
        lemma_turn(x as int, 9);
        lemma_turn(x as int, 31);
        lemma_turn(x as int, 61);
        assert(index(x, 9) == x % 9 && index(y, 9) == y % 9);
        assert(index(x, 31) == x % 31 && index(y, 31) == y % 31);
        assert(index(x, 61) == x % 61 && index(y, 61) == y % 61);
    }
}

proof fn lemma_turn(x: int, m: int)
    requires
        x >= 0,
        m > 0,
    ensures
        (x + 1) % m == (if x % m == m - 1 {
            0
        } else {
            x % m + 1
        }),
{
    let (q, r) = (x / m, x % m);
    vstd::arithmetic::div_mod::lemma_fundamental_div_mod(x, m);
    if r == m - 1 {
        assert(x + 1 == (q + 1) * m + 0) by (nonlinear_arith)
            requires
                x == m * q + r,
                r == m - 1,
        ;
        vstd::arithmetic::div_mod::lemma_fundamental_div_mod_converse(x + 1, m, q + 1, 0);
    } else {
        assert(x + 1 == q * m + (r + 1)) by (nonlinear_arith)
            requires
                x == m * q + r,
        ;
        vstd::arithmetic::div_mod::lemma_fundamental_div_mod_converse(x + 1, m, q, r + 1);
    }
}

/// The root of a random tree of the corpus: a leaf for up to 44 of a hundred, a difference for
/// up to 34 of the rest, as the profile's own draws say.
pub proof fn law_profiled_root(s: u64, n: usize)
    requires
        n > 0,
    ensures
        ({
            let t = profiled(s, n).0;
            &&& draw(s, 7) % 100 < draw(s, 3) % 45 ==> t == Tree::Leaf((draw(s, 8) as usize) % n)
            &&& draw(s, 7) % 100 >= draw(s, 3) % 45 && draw(s, 8) % 100 < draw(s, 4) % 35
                ==> t is Diff
        }),
{
    let x = |k: nat| draw(s, k);
    let b = budget(x(0) % 10, x(1));
    let prof = Profile {
        leaf_pct: x(3) % 45,
        diff_pct: x(4) % 35,
        or_pct: (20 + x(5) % 60) as u64,
        wide: x(6) % 3 == 0,
    };
    law_budget(x(0) % 10, x(1));
    let st = state_after(s, 7);
    lemma_state_after(s, 7, 1);
    lemma_state_after(s, 7, 2);
    assert(draw(st, 0) == draw(s, 7) && draw(st, 1) == draw(s, 8));
    law_profile_root(st, b, (1 + index(x(2), 14)) as nat, prof, n);
}

/// A random tree of the corpus keeps to the budget of its first draw, and its unions and
/// intersections hold two to a hundred children. It never is of a profile without
/// intersections or without unions, and half of the trees are of ten leaves at most.
pub proof fn law_profiled(s: u64, n: usize)
    requires
        n > 0,
    ensures
        draw(s, 0) % 10 <= 4 ==> profiled(s, n).0.leaves() <= 10,
        draw(s, 0) % 10 <= 7 ==> profiled(s, n).0.leaves() <= 40,
        profiled(s, n).0.leaves() <= 100,
        profiled(s, n).0.depth() <= 15,
        made_of(profiled(s, n).0, (Ops { and: true, or: true, diff: draw(s, 4) % 35 > 0 }), 2, 100),
{
    let x = |k: nat| draw(s, k);
    let b = budget(x(0) % 10, x(1));
    let prof = Profile {
        leaf_pct: x(3) % 45,
        diff_pct: x(4) % 35,
        or_pct: (20 + x(5) % 60) as u64,
        wide: x(6) % 3 == 0,
    };
    let d = (1 + index(x(2), 14)) as nat;
    law_budget(x(0) % 10, x(1));
    law_shaped(state_after(s, 7), b, d, prof, n);
    law_profile(state_after(s, 7), b, d, prof, n);
    let t = shaped(state_after(s, 7), b, d, prof, n).0;
    lemma_freer(t, shares_of(prof), (Ops { and: true, or: true, diff: x(4) % 35 > 0 }), widest(prof, b));
    lemma_wider(t, (Ops { and: true, or: true, diff: x(4) % 35 > 0 }), widest(prof, b), 100);
}

proof fn lemma_freer(t: Tree, a: Ops, b: Ops, hi: int)
    requires
        made_of(t, a, 2, hi),
        a.and ==> b.and,
        a.or ==> b.or,
        a.diff ==> b.diff,
    ensures
        made_of(t, b, 2, hi),
    decreases t,
{
    match t {
        Tree::Leaf(_) => {},
        Tree::And(ts) => {
            lemma_all_freer(ts, a, b, hi);
        },
        Tree::Or(ts) => {
            lemma_all_freer(ts, a, b, hi);
        },
        Tree::Diff(x, y) => {
            lemma_freer(*x, a, b, hi);
            lemma_freer(*y, a, b, hi);
        },
    }
}

proof fn lemma_all_freer(ts: Seq<Tree>, a: Ops, b: Ops, hi: int)
    requires
        all_made_of(ts, a, 2, hi),
        a.and ==> b.and,
        a.or ==> b.or,
        a.diff ==> b.diff,
    ensures
        all_made_of(ts, b, 2, hi),
    decreases ts,
{
    if ts.len() > 0 {
        lemma_all_freer(ts.drop_last(), a, b, hi);
        lemma_freer(ts.last(), a, b, hi);
    }
}

proof fn lemma_profiled_first(s: u64, k: nat, n: usize)
    requires
        k > 0,
    ensures
        profiled_all(s, k, n).0.len() == k,
        profiled_all(s, k, n).0[0] == profiled(s, n).0,
    decreases k,
{
    reveal_with_fuel(profiled_all, 2);
    if k > 1 {
        lemma_profiled_first(s, (k - 1) as nat, n);
    }
}

proof fn lemma_pillar_first(s: u64, k: nat, n: usize)
    ensures
        pillar_all(s, k, n).0.len() == k,
        k > 0 ==> pillar_all(s, k, n).0[0] == pillar(s, n).0,
    decreases k,
{
    reveal_with_fuel(pillar_all, 2);
    if k > 1 {
        lemma_pillar_first(s, (k - 1) as nat, n);
    }
}

/// `t` is of the shape family that the first draw of `s` says.
pub open spec fn of_family(t: Tree, s: u64, n: usize) -> bool {
    t == family(s, n).0
}

/// `t` is of one of the shape families.
pub open spec fn of_families(t: Tree, n: usize) -> bool {
    exists|s: u64| of_family(t, s, n)
}

proof fn lemma_family_each(s: u64, k: nat, n: usize)
    ensures
        family_all(s, k, n).0.len() == k,
        forall|i: int|
            0 <= i < k ==> of_families(#[trigger] family_all(s, k, n).0[i], n),
    decreases k,
{
    if k > 0 {
        lemma_family_each(s, (k - 1) as nat, n);
        let (ts, s1) = family_all(s, (k - 1) as nat, n);
        let all = family_all(s, k, n).0;
        assert forall|i: int| 0 <= i < k implies of_families(#[trigger] all[i], n) by {
            if i < k - 1 {
                assert(all[i] == ts[i]);
            } else {
                assert(of_family(all[i], s1, n));
            }
        }
    }
}

/// The corpus is drawn from one stream, which starts from `0x00C0_2B05_2026` whatever its
/// size: it begins with the profiled tree of that state, or where it is of a hundred trees at
/// most with its pillar. Its second half is of the shape families.
pub proof fn law_corpus_order(n_trees: nat, n: usize)
    requires
        n > 0,
        n_trees > 0,
    ensures
        corpus(n_trees, n).len() == 2 * n_trees,
        n_trees > 100 ==> corpus(n_trees, n)[0] == profiled(0x00C0_2B05_2026, n).0,
        n_trees <= 100 ==> corpus(n_trees, n)[0] == pillar(0x00C0_2B05_2026, n).0,
        forall|i: int|
            n_trees <= i < 2 * n_trees ==> of_families(#[trigger] corpus(n_trees, n)[i], n),
{
    let p = pillars(n_trees);
    let m = (n_trees - p) as nat;
    let (a, s1) = profiled_all(0x00C0_2B05_2026, m, n);
    let (b, s2) = pillar_all(s1, p, n);
    let c = family_all(s2, n_trees, n).0;
    if m > 0 {
        lemma_profiled_first(0x00C0_2B05_2026, m, n);
    }
    lemma_pillar_first(s1, p, n);
    lemma_family_each(s2, n_trees, n);
    let all = corpus(n_trees, n);
    assert(all == a + b + c);
    assert forall|i: int| n_trees <= i < 2 * n_trees implies of_families(
        #[trigger] all[i],
        n,
    ) by {
        assert(all[i] == c[i - n_trees]);
    }
}

// --- the stream ---------------------------------------------------------------------------

/// State `t` comes `k` draws after state `s`.
pub open spec fn after(s: u64, t: u64, k: nat) -> bool {
    t == state_after(s, k)
}

/// State `t` comes at least one draw after state `s`.
pub open spec fn moved(s: u64, t: u64) -> bool {
    exists|k: nat| k > 0 && #[trigger] after(s, t, k)
}

proof fn lemma_moved(s: u64, k: nat)
    requires
        k > 0,
    ensures
        moved(s, state_after(s, k)),
{
    assert(after(s, state_after(s, k), k));
}

proof fn lemma_next(s: u64)
    ensures
        moved(s, next_state(s)),
{
    reveal_with_fuel(state_after, 2);
    lemma_moved(s, 1);
}

proof fn lemma_moved_on(s: u64, t: u64, u: u64)
    requires
        moved(s, t),
        moved(t, u),
    ensures
        moved(s, u),
{
    let j = choose|k: nat| k > 0 && #[trigger] after(s, t, k);
    let k = choose|k: nat| k > 0 && #[trigger] after(t, u, k);
    lemma_state_after(s, j, k);
    assert(after(s, u, j + k));
}

/// A profiled tree takes draws of the stream and leaves it further on, so the next tree is
/// made of other draws.
pub proof fn law_profile_moves(s: u64, budget: usize, depth: nat, prof: Profile, n: usize)
    requires
        n > 0,
    ensures
        moved(s, shaped(s, budget, depth, prof, n).1),
    decreases depth, 0nat,
{
    let s1 = next_state(s);
    let s2 = next_state(s1);
    lemma_next(s);
    lemma_next(s1);
    lemma_moved_on(s, s1, s2);
    if budget <= 1 || depth == 0 || rnd(s) % 100 < prof.leaf_pct {
    } else if rnd(s1) % 100 < prof.diff_pct {
        let l = (1 + index(rnd(s2), (budget - 1) as usize)) as usize;
        let s3 = next_state(s2);
        let a = shaped(s3, l, (depth - 1) as nat, prof, n);
        let b = shaped(a.1, (budget - l) as usize, (depth - 1) as nat, prof, n);
        lemma_next(s2);
        lemma_moved_on(s, s2, s3);
        law_profile_moves(s3, l, (depth - 1) as nat, prof, n);
        lemma_moved_on(s, s3, a.1);
        law_profile_moves(a.1, (budget - l) as usize, (depth - 1) as nat, prof, n);
        lemma_moved_on(s, a.1, b.1);
    } else {
        let s3 = if prof.wide {
            next_state(s2)
        } else {
            s2
        };
        lemma_next(s2);
        if prof.wide {
            lemma_moved_on(s, s2, s3);
        }
        let range = width_range(max_width(s2, budget as nat, prof), budget as nat);
        let w = (2 + index(rnd(s3), range as usize)) as nat;
        let s4 = next_state(s3);
        let (s5, cs) = (state_after(s4, (w - 1) as nat), cuts(s4, (w - 1) as nat, budget));
        lemma_next(s3);
        lemma_moved_on(s, s3, s4);
        lemma_moved(s4, (w - 1) as nat);
        lemma_moved_on(s, s4, s5);
        lemma_shares_move(s5, cs, 0, budget, (depth - 1) as nat, prof, n);
        lemma_moved_on(s, s5, shares(s5, cs, 0, budget, (depth - 1) as nat, prof, n).1);
    }
}

proof fn lemma_shares_move(
    s: u64,
    cuts: Seq<usize>,
    prev: usize,
    budget: usize,
    depth: nat,
    prof: Profile,
    n: usize,
)
    requires
        n > 0,
        prev < budget,
    ensures
        moved(s, shares(s, cuts, prev, budget, depth, prof, n).1),
    decreases depth, budget - prev,
{
    lemma_next_cut(cuts, prev as int, budget as int);
    let cut = next_cut(cuts, prev as int, budget as int) as usize;
    let (t, s1) = shaped(s, (cut - prev) as usize, depth, prof, n);
    law_profile_moves(s, (cut - prev) as usize, depth, prof, n);
    if cut < budget {
        lemma_shares_move(s1, cuts, cut, budget, depth, prof, n);
        lemma_moved_on(s, s1, shares(s1, cuts, cut, budget, depth, prof, n).1);
    } else {
        assert(shares(s1, cuts, cut, budget, depth, prof, n).1 == s1);
    }
}

/// So do a random tree of the corpus, which takes eight draws at least, and a tree of the
/// shape families.
pub proof fn law_corpus_moves(s: u64, n: usize)
    requires
        n > 0,
    ensures
        moved(state_after(s, 7), profiled(s, n).1),
        moved(s, profiled(s, n).1),
        moved(s, family(s, n).1),
{
    let x = |k: nat| draw(s, k);
    let prof = Profile {
        leaf_pct: x(3) % 45,
        diff_pct: x(4) % 35,
        or_pct: (20 + x(5) % 60) as u64,
        wide: x(6) % 3 == 0,
    };
    law_profile_moves(
        state_after(s, 7),
        budget(x(0) % 10, x(1)),
        (1 + index(x(2), 14)) as nat,
        prof,
        n,
    );
    lemma_moved(s, 7);
    lemma_moved_on(s, state_after(s, 7), profiled(s, n).1);
    reveal_with_fuel(state_after, 6);
    let s3 = state_after(s, 3);
    let s2 = state_after(s, 2);
    assert(s2 == next_state(next_state(s)) && s3 == next_state(s2));
    lemma_moved(s, 2);
    lemma_moved(s, 3);
    lemma_moved(s, 4);
    lemma_moved(s, 5);
    let c = rnd(s) % 10;
    if c == 1 {
        let k = (8 + rnd(s2) % 16) as nat;
        lemma_moved(s3, k);
        lemma_moved_on(s, s3, state_after(s3, k));
    } else if c == 2 {
        let w = (16 + index(rnd(next_state(s)), 33)) as nat;
        let t = state_after(s2, w);
        lemma_moved(s2, w);
        lemma_moved_on(s, s2, t);
        lemma_next(t);
        lemma_moved_on(s, t, next_state(t));
    } else if c == 3 {
        lemma_moved(s2, 6);
        lemma_moved_on(s, s2, state_after(s2, 6));
    } else if c == 5 {
        let k = (2 + rnd(s2) % 4) as nat;
        lemma_moved(s3, k);
        lemma_moved_on(s, s3, state_after(s3, k));
    } else if c == 9 {
        let k = (3 + index(rnd(next_state(s)), 4)) as nat;
        lemma_moved(s2, 2 * k);
        lemma_moved_on(s, s2, state_after(s2, 2 * k));
    }
}

/// Two trees after each other in the profiled part of a corpus are drawn one after the other:
/// the second from where the first left the stream.
pub proof fn law_corpus_chain(n_trees: nat, n: usize, i: int)
    requires
        0 <= i,
        i + 1 < n_trees - pillars(n_trees),
    ensures
        exists|s: u64| #[trigger] chained(corpus(n_trees, n), i, s, n),
{
    let p = pillars(n_trees);
    let m = (n_trees - p) as nat;
    let (a, s1) = profiled_all(0x00C0_2B05_2026, m, n);
    let (b, s2) = pillar_all(s1, p, n);
    let c = family_all(s2, n_trees, n).0;
    lemma_chained(0x00C0_2B05_2026, m, n, i);
    let s = choose|s: u64| #[trigger] chained(a, i, s, n);
    let all = corpus(n_trees, n);
    assert(all == a + b + c);
    lemma_profiled_first(0x00C0_2B05_2026, m, n);
    assert(all[i] == a[i] && all[i + 1] == a[i + 1]);
    assert(chained(all, i, s, n));
}

/// Trees `i` and `i + 1` are the profiled trees of state `s`, one after the other.
pub open spec fn chained(ts: Seq<Tree>, i: int, s: u64, n: usize) -> bool {
    ts[i] == profiled(s, n).0 && ts[i + 1] == profiled(profiled(s, n).1, n).0
}

proof fn lemma_chained(s: u64, k: nat, n: usize, i: int)
    requires
        0 <= i,
        i + 1 < k,
    ensures
        exists|st: u64| #[trigger] chained(profiled_all(s, k, n).0, i, st, n),
    decreases k,
{
    let (ts, s1) = profiled_all(s, (k - 1) as nat, n);
    let all = profiled_all(s, k, n).0;
    lemma_profiled_first(s, (k - 1) as nat, n);
    if i + 1 < k - 1 {
        lemma_chained(s, (k - 1) as nat, n, i);
        let st = choose|st: u64| #[trigger] chained(ts, i, st, n);
        assert(all[i] == ts[i] && all[i + 1] == ts[i + 1]);
        assert(chained(all, i, st, n));
    } else {
        let (us, s0) = profiled_all(s, (k - 2) as nat, n);
        if k > 2 {
            lemma_profiled_first(s, (k - 2) as nat, n);
        }
        assert(us.len() == k - 2);
        assert(ts == us.push(profiled(s0, n).0) && s1 == profiled(s0, n).1);
        assert(all == ts.push(profiled(s1, n).0));
        assert(all[i] == ts[i]);
        assert(chained(all, i, s0, n));
    }
}

// --- shape families -----------------------------------------------------------------------

proof fn lemma_and_value(ts: Seq<Tree>, pool: Seq<Set<u32>>, i: int)
    requires
        0 <= i < ts.len(),
    ensures
        Tree::And(ts).value(pool).subset_of(ts[i].value(pool)),
{
    lemma_list(ts, pool);
    let sets = values(ts, pool);
    assert forall|v: u32| Tree::And(ts).value(pool).contains(v) implies ts[i].value(pool).contains(v) by {
        assert(sets[i].contains(v));
    }
}

proof fn lemma_or_both(a: Tree, b: Tree, pool: Seq<Set<u32>>)
    ensures
        Tree::Or(seq![a, b]).value(pool) == a.value(pool).union(b.value(pool)),
{
    let ts = seq![a, b];
    lemma_list(ts, pool);
    let sets = values(ts, pool);
    assert(sets[0] == a.value(pool) && sets[1] == b.value(pool));
    assert forall|v: u32|
        Tree::Or(ts).value(pool).contains(v) <==> a.value(pool).contains(v) || b.value(pool).contains(
            v,
        ) by {
        if Tree::Or(ts).value(pool).contains(v) {
            let i = choose|i: int| 0 <= i < sets.len() && (#[trigger] sets[i]).contains(v);
            assert(i == 0 || i == 1);
        }
        if a.value(pool).contains(v) || b.value(pool).contains(v) {
            assert(sets[0].contains(v) || sets[1].contains(v));
        }
    }
    assert(Tree::Or(ts).value(pool) =~= a.value(pool).union(b.value(pool)));
}

proof fn lemma_same_value(ts: Seq<Tree>, t: Tree, pool: Seq<Set<u32>>)
    requires
        ts.len() > 0,
        forall|i: int| 0 <= i < ts.len() ==> #[trigger] ts[i] == t,
    ensures
        Tree::And(ts).value(pool) == t.value(pool),
        Tree::Or(ts).value(pool) == t.value(pool),
{
    lemma_list(ts, pool);
    let sets = values(ts, pool);
    assert(ts[0] == t && sets[0] == t.value(pool));
    assert forall|v: u32| Tree::And(ts).value(pool).contains(v) <==> t.value(pool).contains(v) by {
        if t.value(pool).contains(v) {
            assert forall|i: int| 0 <= i < sets.len() implies (#[trigger] sets[i]).contains(v) by {
                assert(ts[i] == t);
            }
        }
        if Tree::And(ts).value(pool).contains(v) {
            assert(sets[0].contains(v));
        }
    }
    assert forall|v: u32| Tree::Or(ts).value(pool).contains(v) <==> t.value(pool).contains(v) by {
        if Tree::Or(ts).value(pool).contains(v) {
            let i = choose|i: int| 0 <= i < sets.len() && (#[trigger] sets[i]).contains(v);
            assert(ts[i] == t);
        }
        if t.value(pool).contains(v) {
            assert(sets[0].contains(v));
        }
    }
    assert(Tree::And(ts).value(pool) =~= t.value(pool));
    assert(Tree::Or(ts).value(pool) =~= t.value(pool));
}

proof fn lemma_pair(a: Tree, b: Tree, ops: Ops, hi: int)
    ensures
        all_leaves(seq![a, b]) == a.leaves() + b.leaves(),
        deepest(seq![a, b]) == (if a.depth() >= b.depth() {
            a.depth()
        } else {
            b.depth()
        }),
        all_made_of(seq![a, b], ops, 2, hi) <==> made_of(a, ops, 2, hi) && made_of(b, ops, 2, hi),
{
    let s = seq![a, b];
    assert(s.drop_last() =~= seq![a]);
    assert(seq![a].drop_last() =~= Seq::<Tree>::empty());
    reveal_with_fuel(all_leaves, 3);
    reveal_with_fuel(deepest, 3);
    assert(a.depth() >= 1 && b.depth() >= 1);
    lemma_all_made_of(s, ops, 2, hi);
    if all_made_of(s, ops, 2, hi) {
        assert(made_of(s[0], ops, 2, hi) && made_of(s[1], ops, 2, hi));
    }
}

/// A chain of intersections: a left-nested spine of nothing else, a leaf hung at each level,
/// within each of them.
proof fn lemma_and_chain(s: u64, t: Tree, k: nat, n: usize, pool: Seq<Set<u32>>)
    requires
        t is Leaf,
    ensures
        ({
            let c = and_chain(s, t, k, n);
            &&& c.leaves() == k + 1
            &&& c.depth() == k + 1
            &&& made_of(c, (Ops { and: true, or: false, diff: false }), 2, 2)
            &&& c.value(pool).subset_of(t.value(pool))
            &&& forall|j: nat|
                j < k ==> c.value(pool).subset_of(
                    Tree::Leaf(index(#[trigger] draw(s, j), n)).value(pool),
                )
        }),
    decreases k,
{
    if k > 0 {
        let (c, l) = (
            and_chain(s, t, (k - 1) as nat, n),
            Tree::Leaf(index(draw(s, (k - 1) as nat), n)),
        );
        lemma_and_chain(s, t, (k - 1) as nat, n, pool);
        lemma_pair(c, l, (Ops { and: true, or: false, diff: false }), 2);
        assert(l.leaves() == 1 && l.depth() == 1);
        lemma_and_value(seq![c, l], pool, 0);
        lemma_and_value(seq![c, l], pool, 1);
        assert forall|j: nat| j < k implies and_chain(s, t, k, n).value(pool).subset_of(
            Tree::Leaf(index(#[trigger] draw(s, j), n)).value(pool),
        ) by {
            if j < k - 1 {
                assert(c.value(pool).subset_of(Tree::Leaf(index(draw(s, j), n)).value(pool)));
            }
        }
    }
}

proof fn lemma_diff_chain(s: u64, t: Tree, k: nat, n: usize, pool: Seq<Set<u32>>)
    requires
        t is Leaf,
    ensures
        ({
            let c = diff_chain(s, t, k, n);
            &&& c.leaves() == k + 1
            &&& c.depth() == k + 1
            &&& made_of(c, (Ops { and: false, or: false, diff: true }), 2, 2)
            &&& c.value(pool).subset_of(t.value(pool))
            &&& forall|j: nat|
                j < k ==> c.value(pool).disjoint(
                    Tree::Leaf(index(#[trigger] draw(s, j), n)).value(pool),
                )
        }),
    decreases k,
{
    if k > 0 {
        let (c, l) = (
            diff_chain(s, t, (k - 1) as nat, n),
            Tree::Leaf(index(draw(s, (k - 1) as nat), n)),
        );
        lemma_diff_chain(s, t, (k - 1) as nat, n, pool);
        assert(l.leaves() == 1 && l.depth() == 1);
        let (x, y) = (c.value(pool), l.value(pool));
        let ops = Ops { and: false, or: false, diff: true };
        assert(made_of(l, ops, 2, 2));
        assert(made_of(minus(c, l), ops, 2, 2));
        assert(minus(c, l).leaves() == k + 1 && minus(c, l).depth() == k + 1);
        assert(minus(c, l).value(pool) == x.difference(y));
        assert forall|j: nat| j < k implies x.difference(y).disjoint(
            Tree::Leaf(index(#[trigger] draw(s, j), n)).value(pool),
        ) by {
            if j < k - 1 {
                assert(x.disjoint(Tree::Leaf(index(draw(s, j), n)).value(pool)));
            }
        }
    }
}

/// The shape families, over any pool, by the first draw:
///
/// - 0: an expanding intersection below a union: the last leaf, and what the first has of the
///   other two;
/// - 1: a deep chain of intersections, 9 to 24 levels, within each of its leaves;
/// - 2: one flat fold of 16 to 48 leaves, a union for the even draws behind them;
/// - 3: always empty, beside a union of six leaves that need not be read;
/// - 4: one leaf repeated two to six times, which stands for itself, an intersection for the
///   even draws behind it;
/// - 5: nested differences, 3 to 6 levels, within their first leaf and apart from all others.
pub proof fn law_families(s: u64, n: usize, pool: Seq<Set<u32>>)
    requires
        n > 0,
    ensures
        ({
            let (t, c) = (family(s, n).0, draw(s, 0) % 10);
            let first = index(draw(s, 1), n) as int;
            &&& c == 0 ==> {
                &&& t is Or
                &&& t.leaves() == 4
                &&& t.depth() == 4
                &&& t.value(pool) == pool[first].intersect(
                    pool[index(draw(s, 2), n) as int].union(pool[index(draw(s, 3), n) as int]),
                ).union(pool[index(draw(s, 4), n) as int])
                &&& made_of(t, (Ops { and: true, or: true, diff: false }), 2, 2)
            }
            &&& c == 1 ==> {
                &&& t.depth() == 9 + draw(s, 2) % 16
                &&& t.leaves() == t.depth()
                &&& forall|j: nat|
                    j + 1 < t.depth() ==> t.value(pool).subset_of(
                        Tree::Leaf(index(#[trigger] draw(state_after(s, 3), j), n)).value(pool),
                    )
                &&& made_of(t, (Ops { and: true, or: false, diff: false }), 2, 2)
                &&& t.value(pool).subset_of(pool[first])
            }
            &&& c == 2 ==> {
                &&& t.depth() == 2
                &&& t.leaves() == 16 + index(draw(s, 1), 33)
                &&& t is Or <==> draw(s, 2 + t.leaves()) % 2 == 0
                &&& t is And <==> draw(s, 2 + t.leaves()) % 2 == 1
                &&& made_of(t, (Ops { and: true, or: true, diff: false }), 16, 48)
            }
            &&& c == 3 ==> {
                &&& t is And
                &&& t.value(pool) == Set::<u32>::empty()
                &&& t.leaves() == 8
                &&& t.depth() == 3
            }
            &&& c == 4 ==> {
                &&& t.value(pool) == pool[first]
                &&& t.leaves() == 2 + index(draw(s, 2), 5)
                &&& t.depth() == 2
                &&& t is And <==> draw(s, 3) % 2 == 0
                &&& t is Or <==> draw(s, 3) % 2 == 1
            }
            &&& c == 5 ==> {
                &&& t.depth() == 3 + draw(s, 2) % 4
                &&& t.leaves() == t.depth()
                &&& made_of(t, (Ops { and: false, or: false, diff: true }), 2, 2)
                &&& t.value(pool).subset_of(pool[first])
                &&& forall|j: nat|
                    j + 1 < t.depth() ==> t.value(pool).disjoint(
                        Tree::Leaf(index(#[trigger] draw(state_after(s, 3), j), n)).value(pool),
                    )
            }
        }),
{
    reveal_with_fuel(state_after, 6);
    let s1 = next_state(s);
    let s2 = next_state(s1);
    let s3 = next_state(s2);
    let s4 = next_state(s3);
    let c = rnd(s) % 10;
    assert(draw(s, 0) == rnd(s));
    assert(draw(s, 1) == rnd(s1));
    assert(draw(s, 2) == rnd(s2));
    assert(draw(s, 3) == rnd(s3));
    assert(draw(s, 4) == rnd(s4));
    let both = Ops { and: true, or: true, diff: false };
    if c == 0 {
        let inner = Tree::Or(seq![pick(s2, n), pick(s3, n)]);
        let mid = Tree::And(seq![pick(s1, n), inner]);
        lemma_pair(pick(s2, n), pick(s3, n), both, 2);
        lemma_pair(pick(s1, n), inner, both, 2);
        lemma_pair(mid, pick(s4, n), both, 2);
        lemma_or_both(mid, pick(s4, n), pool);
        lemma_or_both(pick(s2, n), pick(s3, n), pool);
        lemma_and_both(pick(s1, n), inner, pool);
        assert(pick(s1, n).leaves() == 1 && pick(s2, n).leaves() == 1 && pick(s3, n).leaves() == 1
            && pick(s4, n).leaves() == 1);
        assert(pick(s1, n).depth() == 1 && pick(s2, n).depth() == 1 && pick(s3, n).depth() == 1
            && pick(s4, n).depth() == 1);
        assert(made_of(pick(s1, n), both, 2, 2) && made_of(pick(s2, n), both, 2, 2) && made_of(
            pick(s3, n),
            both,
            2,
            2,
        ) && made_of(pick(s4, n), both, 2, 2));
        assert(made_of(inner, both, 2, 2));
        assert(made_of(mid, both, 2, 2));
    } else if c == 1 {
        lemma_and_chain(s3, pick(s1, n), (8 + rnd(s2) % 16) as nat, n, pool);
    } else if c == 2 {
        let w = (16 + index(rnd(s1), 33)) as nat;
        let ts = picks(s2, w, n);
        let ops = Ops { and: true, or: true, diff: false };
        lemma_leaves(ts);
        lemma_state_after(s, 2, w);
        lemma_state_after(s, 2, w + 1);
        assert(draw(s, 2 + w) == rnd(state_after(s2, w)));
        lemma_all_made_of(ts, ops, 16, 48);
        assert forall|i: int| 0 <= i < ts.len() implies made_of(#[trigger] ts[i], ops, 16, 48) by {
            assert(ts[i] is Leaf);
        }
    } else if c == 3 {
        let x = pick(s1, n);
        let ts = picks(s2, 6, n);
        let u = Tree::Or(ts);
        lemma_leaves(ts);
        lemma_leaf_pair(x, x, both, 2, 2);
        lemma_pair(minus(x, x), u, both, 2);
        assert(u.leaves() == 6 && u.depth() == 2);
        lemma_and_value(seq![minus(x, x), u], pool, 0);
        assert(minus(x, x).value(pool) == x.value(pool).difference(x.value(pool)));
        assert(minus(x, x).value(pool) =~= Set::<u32>::empty());
        assert(Tree::And(seq![minus(x, x), u]).value(pool) =~= Set::<u32>::empty());
    } else if c == 4 {
        let ts = Seq::new((2 + index(rnd(s2), 5)) as nat, |j: int| pick(s1, n));
        assert forall|i: int| 0 <= i < ts.len() implies #[trigger] ts[i] == pick(s1, n) by {
        }
        lemma_same_value(ts, pick(s1, n), pool);
        lemma_leaves(ts);
    } else if c == 5 {
        let k = (2 + rnd(s2) % 4) as nat;
        lemma_diff_chain(s3, pick(s1, n), k, n, pool);
    }
}

proof fn lemma_leaves(ts: Seq<Tree>)
    requires
        ts.len() > 0,
        forall|i: int| 0 <= i < ts.len() ==> (#[trigger] ts[i]) is Leaf,
    ensures
        all_leaves(ts) == ts.len(),
        deepest(ts) == 1,
{
    lemma_each(ts, 0);
    lemma_list(ts, Seq::empty());
    assert(ts[0] is Leaf);
    assert(ts[0].depth() == 1);
}

/// The other shape families, over any pool: two leaves of disjoint key bands, a run leaf
/// without a bitmap leaf within another, a tiny leaf within two others, and a union of three
/// to six differences of leaves.
pub proof fn law_families_fixed(s: u64, n: usize, pool: Seq<Set<u32>>)
    requires
        n > 0,
    ensures
        ({
            let (t, c) = (family(s, n).0, draw(s, 0) % 10);
            &&& c == 6 ==> {
                &&& t.leaves() == 2
                &&& t.value(pool) == pool[17 + index(draw(s, 1), 2)].intersect(
                    pool[21 + index(draw(s, 2), 3)],
                )
            }
            &&& c == 7 ==> {
                &&& t.leaves() == 3
                &&& t.value(pool).subset_of(pool[24])
                &&& t.value(pool).disjoint(pool[25])
                &&& t.value(pool) == pool[24].difference(pool[25]).intersect(
                    pool[index(draw(s, 1), n) as int],
                )
            }
            &&& c == 8 ==> {
                &&& t.leaves() == 3
                &&& t.depth() == 2
                &&& t.value(pool) == pool[26].intersect(pool[index(draw(s, 1), n) as int]).intersect(
                    pool[index(draw(s, 2), n) as int],
                )
            }
            &&& c == 9 ==> {
                &&& t is Or
                &&& t.depth() == 3
                &&& t.leaves() == 2 * (3 + index(draw(s, 1), 4))
                &&& made_of(t, (Ops { and: false, or: true, diff: true }), 3, 6)
            }
        }),
{
    reveal_with_fuel(state_after, 4);
    let s1 = next_state(s);
    let s2 = next_state(s1);
    let c = rnd(s) % 10;
    assert(draw(s, 0) == rnd(s));
    assert(draw(s, 1) == rnd(s1));
    assert(draw(s, 2) == rnd(s2));
    if c == 6 {
        let (a, b) = (
            Tree::Leaf((17 + index(rnd(s1), 2)) as usize),
            Tree::Leaf((21 + index(rnd(s2), 3)) as usize),
        );
        lemma_pair(a, b, (Ops { and: true, or: true, diff: true }), 2);
        lemma_and_both(a, b, pool);
        assert(a.leaves() == 1 && b.leaves() == 1);
    } else if c == 7 {
        let d = minus(Tree::Leaf(24), Tree::Leaf(25));
        lemma_pair(d, pick(s1, n), (Ops { and: true, or: true, diff: true }), 2);
        lemma_and_both(d, pick(s1, n), pool);
        lemma_leaf_pair(Tree::Leaf(24), Tree::Leaf(25), (Ops { and: true, or: true, diff: true }), 2, 2);
        assert(pick(s1, n).leaves() == 1);
        assert(d.value(pool) == Tree::Leaf(24).value(pool).difference(Tree::Leaf(25).value(pool)));
    } else if c == 8 {
        let ts = seq![Tree::Leaf(26), pick(s1, n), pick(s2, n)];
        lemma_leaves(ts);
        lemma_list(ts, pool);
        let sets = values(ts, pool);
        let want = pool[26].intersect(pool[index(draw(s, 1), n) as int]).intersect(
            pool[index(draw(s, 2), n) as int],
        );
        assert(sets[0] == pool[26] && sets[1] == pick(s1, n).value(pool) && sets[2] == pick(s2, n).value(
            pool,
        ));
        assert forall|v: u32| Tree::And(ts).value(pool).contains(v) <==> want.contains(v) by {
            if Tree::And(ts).value(pool).contains(v) {
                assert(sets[0].contains(v) && sets[1].contains(v) && sets[2].contains(v));
            }
            if want.contains(v) {
                assert forall|i: int| 0 <= i < sets.len() implies (#[trigger] sets[i]).contains(v) by {
                }
            }
        }
        assert(Tree::And(ts).value(pool) =~= want);
    } else if c == 9 {
        let k = (3 + index(rnd(s1), 4)) as nat;
        let ts = diffs(s2, k, n);
        let ops = Ops { and: false, or: true, diff: true };
        lemma_all_made_of(ts, ops, 3, 6);
        assert forall|i: int| 0 <= i < ts.len() implies made_of(#[trigger] ts[i], ops, 3, 6)
            && ts[i].leaves() == 2 && ts[i].depth() == 2 by {
            let (a, b) = (
                Tree::Leaf(index(draw(s2, (2 * i) as nat), n)),
                Tree::Leaf(index(draw(s2, (2 * i + 1) as nat), n)),
            );
            assert(ts[i] == minus(a, b));
            lemma_leaf_pair(a, b, ops, 3, 6);
        }
        lemma_all_two(ts);
        lemma_list(ts, pool);
        assert(ts[0].depth() == 2);
    }
}

proof fn lemma_leaf_pair(a: Tree, b: Tree, ops: Ops, lo: int, hi: int)
    requires
        a is Leaf,
        b is Leaf,
    ensures
        minus(a, b).leaves() == 2,
        minus(a, b).depth() == 2,
        ops.diff ==> made_of(minus(a, b), ops, lo, hi),
{
    assert(a.leaves() == 1 && b.leaves() == 1);
    assert(a.depth() == 1 && b.depth() == 1);
    assert(made_of(a, ops, lo, hi) && made_of(b, ops, lo, hi));
}

proof fn lemma_all_two(ts: Seq<Tree>)
    requires
        forall|i: int| 0 <= i < ts.len() ==> (#[trigger] ts[i]).leaves() == 2,
    ensures
        all_leaves(ts) == 2 * ts.len(),
    decreases ts.len(),
{
    if ts.len() > 0 {
        let d = ts.drop_last();
        assert forall|i: int| 0 <= i < d.len() implies (#[trigger] d[i]).leaves() == 2 by {
            assert(d[i] == ts[i]);
        }
        lemma_all_two(d);
        assert(ts[ts.len() - 1].leaves() == 2);
    }
}

proof fn lemma_and_both(a: Tree, b: Tree, pool: Seq<Set<u32>>)
    ensures
        Tree::And(seq![a, b]).value(pool) == a.value(pool).intersect(b.value(pool)),
{
    let ts = seq![a, b];
    lemma_list(ts, pool);
    let sets = values(ts, pool);
    assert(sets[0] == a.value(pool) && sets[1] == b.value(pool));
    assert forall|v: u32|
        Tree::And(ts).value(pool).contains(v) <==> a.value(pool).contains(v) && b.value(pool).contains(
            v,
        ) by {
        if Tree::And(ts).value(pool).contains(v) {
            assert(sets[0].contains(v) && sets[1].contains(v));
        }
        if a.value(pool).contains(v) && b.value(pool).contains(v) {
            assert forall|i: int| 0 <= i < sets.len() implies (#[trigger] sets[i]).contains(v) by {
            }
        }
    }
    assert(Tree::And(ts).value(pool) =~= a.value(pool).intersect(b.value(pool)));
}

} // verus!
