//! Generators of expression trees. Each is a function of the state of the random stream, so
//! a corpus is the same on every run.
use vstd::prelude::*;

use crate::treegen::{
    all_leaves, all_within, and, deepest, diff, leaf, lemma_append, lemma_each, lemma_single,
    lemma_trees, lemma_trees_push, or, trees, Spec, Tree,
};
use crate::engines::Workload;
use crate::model::asc32;
use crate::workload::{
    arrays, block_ranges, dense, draw, lemma_state_after, mix, next_state, ranges_set, runs,
    scatter_set, splitmix64, state_after, steps, steps_set, whole,
};

verus! {

// --- draws --------------------------------------------------------------------------------

/// The next output of a stream.
pub open spec fn rnd(s: u64) -> u64 {
    mix(next_state(s))
}

/// The pool index of an output.
pub open spec fn index(x: u64, n: usize) -> usize {
    (x as usize) % n
}

/// The leaf of the next output.
pub open spec fn pick(s: u64, n: usize) -> Tree {
    Tree::Leaf(index(rnd(s), n))
}

/// The leaves of the next `k` outputs.
pub open spec fn picks(s: u64, k: nat, n: usize) -> Seq<Tree> {
    Seq::new(k, |j: int| Tree::Leaf(index(draw(s, j as nat), n)))
}

fn pick_leaf(st: &mut u64, n: usize) -> (r: Spec)
    requires
        n > 0,
    ensures
        r.tree() == pick(*old(st), n),
        *final(st) == next_state(*old(st)),
{
    leaf((splitmix64(st) as usize) % n)
}

fn pick_leaves(st: &mut u64, k: usize, n: usize) -> (r: Vec<Spec>)
    requires
        n > 0,
    ensures
        r.len() == k,
        trees(r@) == picks(*old(st), k as nat, n),
        *final(st) == state_after(*old(st), k as nat),
{
    let ghost s0 = *st;
    let mut out: Vec<Spec> = Vec::new();
    let mut j: usize = 0;
    assert(trees(out@) =~= picks(s0, 0, n));
    while j < k
        invariant
            n > 0,
            j <= k,
            out.len() == j,
            trees(out@) == picks(s0, j as nat, n),
            *st == state_after(s0, j as nat),
        decreases k - j,
    {
        let ghost before = out@;
        let c: Spec = pick_leaf(st, n);
        proof {
            lemma_trees_push(before, c);
            assert(picks(s0, j as nat, n).push(c.tree()) =~= picks(s0, (j + 1) as nat, n));
        }
        out.push(c);
        j = j + 1;
    }
    out
}

fn list2(a: Spec, b: Spec) -> (r: Vec<Spec>)
    ensures
        trees(r@) == seq![a.tree(), b.tree()],
{
    let r: Vec<Spec> = vec![a, b];
    proof {
        lemma_trees(r@);
        assert(trees(r@) =~= seq![a.tree(), b.tree()]);
    }
    r
}

fn list3(a: Spec, b: Spec, c: Spec) -> (r: Vec<Spec>)
    ensures
        trees(r@) == seq![a.tree(), b.tree(), c.tree()],
{
    let r: Vec<Spec> = vec![a, b, c];
    proof {
        lemma_trees(r@);
        assert(trees(r@) =~= seq![a.tree(), b.tree(), c.tree()]);
    }
    r
}

fn list4(a: Spec, b: Spec, c: Spec, d: Spec) -> (r: Vec<Spec>)
    ensures
        trees(r@) == seq![a.tree(), b.tree(), c.tree(), d.tree()],
{
    let r: Vec<Spec> = vec![a, b, c, d];
    proof {
        lemma_trees(r@);
        assert(trees(r@) =~= seq![a.tree(), b.tree(), c.tree(), d.tree()]);
    }
    r
}

/// The first tree without the second.
pub open spec fn minus(a: Tree, b: Tree) -> Tree {
    Tree::Diff(Box::new(a), Box::new(b))
}

// --- budgeted trees -----------------------------------------------------------------------

/// A tree of roughly `budget` leaves, and the state it leaves the stream in.
pub open spec fn grown(s: u64, budget: nat, n: usize) -> (Tree, u64)
    decreases budget, 0nat,
{
    let s1 = next_state(s);
    if budget <= 1 {
        (pick(s, n), s1)
    } else if rnd(s) % 5 == 0 {
        let (a, s2) = grown(s1, budget / 2, n);
        let (b, s3) = grown(s2, budget / 2, n);
        (minus(a, b), s3)
    } else {
        let k = 2 + (rnd(s1) % 3) as nat;
        proof {
            assert(budget / k <= budget / 2) by (nonlinear_arith)
                requires
                    2 <= k,
            ;
        }
        let per = if budget / k > 1 {
            budget / k
        } else {
            1
        };
        let (ts, s2) = grown_all(next_state(s1), k, per, n);
        (
            if (rnd(s) % 5) % 2 == 0 {
                Tree::And(ts)
            } else {
                Tree::Or(ts)
            },
            s2,
        )
    }
}

/// `k` trees of roughly `per` leaves each.
pub open spec fn grown_all(s: u64, k: nat, per: nat, n: usize) -> (Seq<Tree>, u64)
    decreases per, k + 1,
{
    if k == 0 {
        (Seq::empty(), s)
    } else {
        let (ts, s1) = grown_all(s, (k - 1) as nat, per, n);
        let (t, s2) = grown(s1, per, n);
        (ts.push(t), s2)
    }
}

/// Generate a tree of roughly `budget` leaves over `n` pool entries.
pub fn gen(st: &mut u64, budget: usize, n: usize) -> (r: Spec)
    requires
        n > 0,
    ensures
        (r.tree(), *final(st)) == grown(*old(st), budget as nat, n),
    decreases budget, 0nat,
{
    if budget <= 1 {
        return pick_leaf(st, n);
    }
    let r: u64 = splitmix64(st) % 5;
    if r == 0 {
        let half: usize = budget / 2;
        let a: Spec = gen(st, half, n);
        let b: Spec = gen(st, half, n);
        diff(a, b)
    } else {
        let k: usize = 2 + (splitmix64(st) % 3) as usize;
        let mut per: usize = budget / k;
        if per < 1 {
            per = 1;
        }
        proof {
            assert(budget / k <= budget / 2) by (nonlinear_arith)
                requires
                    2 <= k,
                    0 <= budget,
            ;
        }
        let kids: Vec<Spec> = gen_all(st, k, per, n);
        if r % 2 == 0 {
            and(kids)
        } else {
            or(kids)
        }
    }
}

fn gen_all(st: &mut u64, k: usize, per: usize, n: usize) -> (r: Vec<Spec>)
    requires
        n > 0,
    ensures
        (trees(r@), *final(st)) == grown_all(*old(st), k as nat, per as nat, n),
    decreases per, k + 1,
{
    if k == 0 {
        return Vec::new();
    }
    let mut out: Vec<Spec> = gen_all(st, k - 1, per, n);
    let ghost before = out@;
    let c: Spec = gen(st, per, n);
    out.push(c);
    proof {
        lemma_trees_push(before, c);
    }
    out
}

// --- profiled trees -----------------------------------------------------------------------

/// Shape profile of a tree: how often a node is a leaf, a difference or a union, in
/// percent, and whether nodes may be very wide.
pub struct Profile {
    pub leaf_pct: u64,
    pub diff_pct: u64,
    pub or_pct: u64,
    pub wide: bool,
}

/// The smallest of the cuts past `prev`, or `budget` where none is smaller.
pub open spec fn next_cut(cuts: Seq<usize>, prev: int, budget: int) -> int
    decreases cuts.len(),
{
    if cuts.len() == 0 {
        budget
    } else {
        let m = next_cut(cuts.drop_last(), prev, budget);
        if prev < cuts.last() < m {
            cuts.last() as int
        } else {
            m
        }
    }
}

/// The next cut lies past `prev`, up to the budget.
pub proof fn lemma_next_cut(cuts: Seq<usize>, prev: int, budget: int)
    requires
        prev < budget,
    ensures
        prev < next_cut(cuts, prev, budget) <= budget,
    decreases cuts.len(),
{
    if cuts.len() > 0 {
        lemma_next_cut(cuts.drop_last(), prev, budget);
    }
}

/// Bound on the width of a node: mostly narrow, where the profile allows it occasionally the
/// full budget.
pub open spec fn max_width(s: u64, budget: nat, prof: Profile) -> nat {
    if prof.wide && rnd(s) % 8 == 0 {
        budget
    } else if budget < 6 {
        2 + budget
    } else {
        8
    }
}

/// What the width of a node is drawn below.
pub open spec fn width_range(max_w: nat, budget: nat) -> nat {
    let m = if max_w < budget {
        max_w
    } else {
        budget
    };
    if m > 2 {
        (m - 1) as nat
    } else {
        1
    }
}

/// The cuts that split a budget over the children of a node.
pub open spec fn cuts(s: u64, k: nat, budget: usize) -> Seq<usize> {
    Seq::new(k, |j: int| (1 + index(draw(s, j as nat), budget)) as usize)
}

/// The node of an op draw over children; a lone child stands for itself.
pub open spec fn node(r: u64, prof: Profile, ts: Seq<Tree>) -> Tree {
    if ts.len() == 1 {
        ts[0]
    } else if r < prof.diff_pct + prof.or_pct {
        Tree::Or(ts)
    } else {
        Tree::And(ts)
    }
}

/// One random tree under `budget` leaves and `depth` remaining levels.
pub open spec fn shaped(s: u64, budget: usize, depth: nat, prof: Profile, n: usize) -> (Tree, u64)
    decreases depth, 0nat,
{
    let s1 = next_state(s);
    let s2 = next_state(s1);
    let r = rnd(s1) % 100;
    if budget <= 1 || depth == 0 {
        (pick(s, n), s1)
    } else if rnd(s) % 100 < prof.leaf_pct {
        (pick(s1, n), s2)
    } else if r < prof.diff_pct {
        let l = (1 + index(rnd(s2), (budget - 1) as usize)) as usize;
        let (a, s3) = shaped(next_state(s2), l, (depth - 1) as nat, prof, n);
        let (b, s4) = shaped(s3, (budget - l) as usize, (depth - 1) as nat, prof, n);
        (minus(a, b), s4)
    } else {
        let s3 = if prof.wide {
            next_state(s2)
        } else {
            s2
        };
        let range = width_range(max_width(s2, budget as nat, prof), budget as nat);
        let w = (2 + index(rnd(s3), range as usize)) as nat;
        let s4 = next_state(s3);
        let (ts, s5) = shares(
            state_after(s4, (w - 1) as nat),
            cuts(s4, (w - 1) as nat, budget),
            0,
            budget,
            (depth - 1) as nat,
            prof,
            n,
        );
        (node(r, prof, ts), s5)
    }
}

/// The children that the cuts past `prev` leave, one for each share of the budget.
pub open spec fn shares(
    s: u64,
    cuts: Seq<usize>,
    prev: usize,
    budget: usize,
    depth: nat,
    prof: Profile,
    n: usize,
) -> (Seq<Tree>, u64)
    decreases depth, budget - prev,
{
    if prev >= budget {
        (Seq::empty(), s)
    } else {
        proof {
            lemma_next_cut(cuts, prev as int, budget as int);
        }
        let cut = next_cut(cuts, prev as int, budget as int) as usize;
        let (t, s1) = shaped(s, (cut - prev) as usize, depth, prof, n);
        let (ts, s2) = shares(s1, cuts, cut, budget, depth, prof, n);
        (seq![t] + ts, s2)
    }
}

/// The smallest of the cuts past `prev`.
fn find_cut(cuts: &Vec<usize>, prev: usize, budget: usize) -> (r: usize)
    requires
        prev < budget,
    ensures
        r == next_cut(cuts@, prev as int, budget as int),
        prev < r <= budget,
{
    let mut m: usize = budget;
    let mut j: usize = 0;
    while j < cuts.len()
        invariant
            prev < m <= budget,
            j <= cuts.len(),
            m == next_cut(cuts@.take(j as int), prev as int, budget as int),
        decreases cuts.len() - j,
    {
        assert(cuts@.take(j + 1).drop_last() =~= cuts@.take(j as int));
        if prev < cuts[j] && cuts[j] < m {
            m = cuts[j];
        }
        j = j + 1;
    }
    assert(cuts@.take(j as int) =~= cuts@);
    m
}

/// Draw the cuts.
fn draw_cuts(st: &mut u64, k: usize, budget: usize) -> (r: Vec<usize>)
    requires
        budget > 0,
    ensures
        r@ == cuts(*old(st), k as nat, budget),
        *final(st) == state_after(*old(st), k as nat),
{
    let ghost s0 = *st;
    let mut out: Vec<usize> = Vec::new();
    let mut j: usize = 0;
    assert(out@ =~= cuts(s0, 0, budget));
    while j < k
        invariant
            budget > 0,
            j <= k,
            out@ == cuts(s0, j as nat, budget),
            *st == state_after(s0, j as nat),
        decreases k - j,
    {
        let c: usize = 1 + (splitmix64(st) as usize) % budget;
        assert(out@.push(c) =~= cuts(s0, (j + 1) as nat, budget));
        out.push(c);
        j = j + 1;
    }
    out
}

/// One random tree under `budget` total leaves and `depth` remaining levels.
pub fn gen_profiled(st: &mut u64, budget: usize, depth: usize, prof: &Profile, n: usize) -> (r:
    Spec)
    requires
        n > 0,
        prof.diff_pct + prof.or_pct <= u64::MAX,
    ensures
        (r.tree(), *final(st)) == shaped(*old(st), budget, depth as nat, *prof, n),
    decreases depth, 0nat,
{
    if budget <= 1 || depth == 0 {
        return pick_leaf(st, n);
    }
    if splitmix64(st) % 100 < prof.leaf_pct {
        return pick_leaf(st, n);
    }
    let r: u64 = splitmix64(st) % 100;
    if r < prof.diff_pct {
        let l: usize = 1 + (splitmix64(st) as usize) % (budget - 1);
        let a: Spec = gen_profiled(st, l, depth - 1, prof, n);
        let b: Spec = gen_profiled(st, budget - l, depth - 1, prof, n);
        return diff(a, b);
    }
    let full: bool = prof.wide && splitmix64(st) % 8 == 0;
    let mut m: usize = if full {
        budget
    } else if budget < 6 {
        2 + budget
    } else {
        8
    };
    if m > budget {
        m = budget;
    }
    if m < 2 {
        m = 2;
    }
    let w: usize = 2 + (splitmix64(st) as usize) % (m - 1);
    let cuts: Vec<usize> = draw_cuts(st, w - 1, budget);
    let mut kids: Vec<Spec> = gen_shares(st, &cuts, budget, depth - 1, prof, n);
    proof {
        lemma_trees(kids@);
    }
    if kids.len() == 1 {
        match kids.pop() {
            Some(k) => {
                return k;
            },
            None => {},
        }
    }
    if r < prof.diff_pct + prof.or_pct {
        or(kids)
    } else {
        and(kids)
    }
}

fn gen_shares(
    st: &mut u64,
    cuts: &Vec<usize>,
    budget: usize,
    depth: usize,
    prof: &Profile,
    n: usize,
) -> (r: Vec<Spec>)
    requires
        n > 0,
        prof.diff_pct + prof.or_pct <= u64::MAX,
    ensures
        (trees(r@), *final(st)) == shares(*old(st), cuts@, 0, budget, depth as nat, *prof, n),
    decreases depth, 1nat,
{
    let ghost want = shares(*st, cuts@, 0, budget, depth as nat, *prof, n);
    let mut out: Vec<Spec> = Vec::new();
    let mut prev: usize = 0;
    assert(trees(out@) + want.0 =~= want.0);
    while prev < budget
        invariant
            n > 0,
            prof.diff_pct + prof.or_pct <= u64::MAX,
            prev <= budget,
            ({
                let rest = shares(*st, cuts@, prev, budget, depth as nat, *prof, n);
                want == (trees(out@) + rest.0, rest.1)
            }),
        decreases budget - prev,
    {
        let ghost before = out@;
        let ghost s0 = *st;
        let cut: usize = find_cut(cuts, prev, budget);
        let c: Spec = gen_profiled(st, cut - prev, depth, prof, n);
        out.push(c);
        proof {
            lemma_trees_push(before, c);
            let rest = shares(*st, cuts@, cut, budget, depth as nat, *prof, n);
            let whole = shares(s0, cuts@, prev, budget, depth as nat, *prof, n);
            assert(whole == (seq![c.tree()] + rest.0, rest.1));
            assert(trees(before) + (seq![c.tree()] + rest.0) =~= trees(out@) + rest.0);
        }
        prev = cut;
    }
    assert(want.0 =~= trees(out@));
    out
}

// --- pillars ------------------------------------------------------------------------------

/// Leaves of a pillar.
pub const LEAVES: usize = 100;

/// Levels of a pillar.
pub const DEPTH: usize = 15;

/// Internal levels above the deepest leaf of a pillar.
pub const SPINE: usize = 14;

/// Leaves hung at each level of the spine: one, and `m` more scattered over the levels.
pub open spec fn hung(s: u64, m: nat) -> Seq<usize>
    decreases m,
{
    if m == 0 {
        Seq::new(SPINE as nat, |k: int| 1usize)
    } else {
        let e = hung(s, (m - 1) as nat);
        let k = index(draw(s, (m - 1) as nat), SPINE) as int;
        e.update(k, (e[k] + 1) as usize)
    }
}

/// One level put on a tree: a difference with one leaf, the tree on either side, or an
/// intersection or union with `m` leaves, the tree somewhere among them.
pub open spec fn raised(s: u64, t: Tree, m: nat, n: usize) -> (Tree, u64) {
    let r = rnd(s) % 100;
    let s1 = next_state(s);
    if r < 20 && m == 1 {
        let s2 = next_state(s1);
        (
            if rnd(s2) % 2 == 0 {
                minus(t, pick(s1, n))
            } else {
                minus(pick(s1, n), t)
            },
            next_state(s2),
        )
    } else {
        let s2 = state_after(s1, m);
        let ts = picks(s1, m, n).insert(index(rnd(s2), (m + 1) as usize) as int, t);
        (
            if r < 60 {
                Tree::And(ts)
            } else {
                Tree::Or(ts)
            },
            next_state(s2),
        )
    }
}

/// A leaf with the first `k` levels put on it.
pub open spec fn spine(s: u64, extra: Seq<usize>, k: nat, n: usize) -> (Tree, u64)
    decreases k,
{
    if k == 0 {
        (pick(s, n), next_state(s))
    } else {
        let (t, s1) = spine(s, extra, (k - 1) as nat, n);
        raised(s1, t, extra[k - 1] as nat, n)
    }
}

/// Leaves of a pillar that are scattered over its levels.
pub open spec fn scattered() -> nat {
    (LEAVES - 1 - SPINE) as nat
}

/// A pillar.
pub open spec fn pillar(s: u64, n: usize) -> (Tree, u64) {
    spine(state_after(s, scattered()), hung(s, scattered()), SPINE as nat, n)
}

proof fn lemma_hung(s: u64, m: nat)
    requires
        m <= scattered(),
    ensures
        hung(s, m).len() == SPINE,
        forall|k: int| 0 <= k < SPINE ==> 1 <= #[trigger] hung(s, m)[k] <= 1 + m,
        total(hung(s, m)) == SPINE + m,
    decreases m,
{
    if m > 0 {
        lemma_hung(s, (m - 1) as nat);
        let e = hung(s, (m - 1) as nat);
        let k = index(draw(s, (m - 1) as nat), SPINE) as int;
        assert(0 <= k < SPINE);
        lemma_total_update(e, k, (e[k] + 1) as usize);
    } else {
        lemma_total_ones(hung(s, 0));
    }
}

/// Sum of a list.
pub open spec fn total(e: Seq<usize>) -> nat
    decreases e.len(),
{
    if e.len() == 0 {
        0
    } else {
        total(e.drop_last()) + e.last() as nat
    }
}

proof fn lemma_total_ones(e: Seq<usize>)
    requires
        forall|k: int| 0 <= k < e.len() ==> #[trigger] e[k] == 1,
    ensures
        total(e) == e.len(),
    decreases e.len(),
{
    if e.len() > 0 {
        assert forall|k: int| 0 <= k < e.len() - 1 implies #[trigger] e.drop_last()[k] == 1 by {
            assert(e.drop_last()[k] == e[k]);
        }
        lemma_total_ones(e.drop_last());
    }
}

proof fn lemma_total_update(e: Seq<usize>, k: int, x: usize)
    requires
        0 <= k < e.len(),
    ensures
        total(e.update(k, x)) == total(e) - e[k] + x,
    decreases e.len(),
{
    let u = e.update(k, x);
    if k < e.len() - 1 {
        lemma_total_update(e.drop_last(), k, x);
        assert(u.drop_last() =~= e.drop_last().update(k, x));
    } else {
        assert(u.drop_last() =~= e.drop_last());
    }
}

/// A "pillar" tree of both extremes at once: exactly [`LEAVES`] leaves and a depth of
/// [`DEPTH`]. Built bottom-up along a spine of nested nodes, the remaining leaves hung
/// across its levels at random.
pub fn gen_pillar(st: &mut u64, pool_len: usize) -> (r: Spec)
    requires
        pool_len > 0,
    ensures
        (r.tree(), *final(st)) == pillar(*old(st), pool_len),
{
    let ghost s0 = *st;
    let mut extra: Vec<usize> = Vec::new();
    let mut k: usize = 0;
    while k < SPINE
        invariant
            k <= SPINE,
            extra.len() == k,
            forall|i: int| 0 <= i < k ==> #[trigger] extra[i] == 1,
        decreases SPINE - k,
    {
        extra.push(1);
        k = k + 1;
    }
    assert(extra@ =~= hung(s0, 0));
    let mut m: usize = 0;
    while m < LEAVES - 1 - SPINE
        invariant
            m <= LEAVES - 1 - SPINE,
            extra@ == hung(s0, m as nat),
            *st == state_after(s0, m as nat),
        decreases LEAVES - 1 - SPINE - m,
    {
        proof {
            lemma_hung(s0, m as nat);
        }
        let at: usize = (splitmix64(st) as usize) % SPINE;
        let e: usize = extra[at];
        extra.set(at, e + 1);
        m = m + 1;
    }
    proof {
        lemma_hung(s0, m as nat);
    }
    let ghost s1 = *st;
    let mut cur: Spec = pick_leaf(st, pool_len);
    let mut j: usize = 0;
    while j < SPINE
        invariant
            pool_len > 0,
            j <= SPINE,
            extra.len() == SPINE,
            forall|i: int| 0 <= i < SPINE ==> 1 <= #[trigger] extra@[i] <= LEAVES,
            (cur.tree(), *st) == spine(s1, extra@, j as nat, pool_len),
        decreases SPINE - j,
    {
        cur = raise(st, cur, extra[j], pool_len);
        j = j + 1;
    }
    cur
}

fn raise(st: &mut u64, cur: Spec, m: usize, n: usize) -> (r: Spec)
    requires
        n > 0,
        m < usize::MAX,
    ensures
        (r.tree(), *final(st)) == raised(*old(st), cur.tree(), m as nat, n),
{
    let r: u64 = splitmix64(st) % 100;
    if r < 20 && m == 1 {
        let l: Spec = pick_leaf(st, n);
        return if splitmix64(st) % 2 == 0 {
            diff(cur, l)
        } else {
            diff(l, cur)
        };
    }
    let mut kids: Vec<Spec> = pick_leaves(st, m, n);
    let ghost before = kids@;
    let at: usize = (splitmix64(st) as usize) % (m + 1);
    kids.insert(at, cur);
    proof {
        lemma_trees(before);
        lemma_trees(kids@);
        assert(kids@ == before.insert(at as int, cur));
        assert(trees(kids@) =~= trees(before).insert(at as int, cur.tree()));
    }
    if r < 60 {
        and(kids)
    } else {
        or(kids)
    }
}

// --- shape families -----------------------------------------------------------------------

/// A tree intersected with `k` leaves, one after the other.
pub open spec fn and_chain(s: u64, t: Tree, k: nat, n: usize) -> Tree
    decreases k,
{
    if k == 0 {
        t
    } else {
        Tree::And(
            seq![and_chain(s, t, (k - 1) as nat, n), Tree::Leaf(
                index(draw(s, (k - 1) as nat), n),
            )],
        )
    }
}

/// A tree without `k` leaves, one after the other.
pub open spec fn diff_chain(s: u64, t: Tree, k: nat, n: usize) -> Tree
    decreases k,
{
    if k == 0 {
        t
    } else {
        minus(
            diff_chain(s, t, (k - 1) as nat, n),
            Tree::Leaf(index(draw(s, (k - 1) as nat), n)),
        )
    }
}

/// `k` differences of two leaves each.
pub open spec fn diffs(s: u64, k: nat, n: usize) -> Seq<Tree> {
    Seq::new(
        k,
        |j: int|
            minus(
                Tree::Leaf(index(draw(s, (2 * j) as nat), n)),
                Tree::Leaf(index(draw(s, (2 * j + 1) as nat), n)),
            ),
    )
}

/// A tree of one of the shape families, each of which drives a path through the engine that
/// the profiled trees do not reach by chance.
pub open spec fn family(s: u64, n: usize) -> (Tree, u64) {
    let s1 = next_state(s);
    let s2 = next_state(s1);
    let s3 = next_state(s2);
    let s4 = next_state(s3);
    let s5 = next_state(s4);
    let c = rnd(s) % 10;
    if c == 0 {
        // An intersection over an expanding subtree, under a root that does not narrow.
        (
            Tree::Or(
                seq![
                    Tree::And(seq![pick(s1, n), Tree::Or(seq![pick(s2, n), pick(s3, n)])]),
                    pick(s4, n),
                ],
            ),
            s5,
        )
    } else if c == 1 {
        // A deep left-nested chain.
        let k = (8 + rnd(s2) % 16) as nat;
        (and_chain(s3, pick(s1, n), k, n), state_after(s3, k))
    } else if c == 2 {
        // Very high fan-in.
        let w = (16 + index(rnd(s1), 33)) as nat;
        let (ts, t) = (picks(s2, w, n), state_after(s2, w));
        (
            if rnd(t) % 2 == 0 {
                Tree::Or(ts)
            } else {
                Tree::And(ts)
            },
            next_state(t),
        )
    } else if c == 3 {
        // An empty subtree beside an expensive one.
        let x = pick(s1, n);
        (Tree::And(seq![minus(x, x), Tree::Or(picks(s2, 6, n))]), state_after(s2, 6))
    } else if c == 4 {
        // One operand repeated.
        let ts = Seq::new((2 + index(rnd(s2), 5)) as nat, |j: int| pick(s1, n));
        (
            if rnd(s3) % 2 == 0 {
                Tree::And(ts)
            } else {
                Tree::Or(ts)
            },
            s4,
        )
    } else if c == 5 {
        // Nested differences.
        let k = (2 + rnd(s2) % 4) as nat;
        (diff_chain(s3, pick(s1, n), k, n), state_after(s3, k))
    } else if c == 6 {
        // An intersection over disjoint keys.
        (
            Tree::And(
                seq![
                    Tree::Leaf((17 + index(rnd(s1), 2)) as usize),
                    Tree::Leaf((21 + index(rnd(s2), 3)) as usize),
                ],
            ),
            s3,
        )
    } else if c == 7 {
        // Runs without a bitmap of the same keys.
        (Tree::And(seq![minus(Tree::Leaf(24), Tree::Leaf(25)), pick(s1, n)]), s2)
    } else if c == 8 {
        // A tiny operand with wide ones.
        (Tree::And(seq![Tree::Leaf(26), pick(s1, n), pick(s2, n)]), s3)
    } else {
        // A union of differences.
        let k = (3 + index(rnd(s1), 4)) as nat;
        (Tree::Or(diffs(s2, k, n)), state_after(s2, 2 * k))
    }
}

fn gen_and_chain(st: &mut u64, e: Spec, k: u64, n: usize) -> (r: Spec)
    requires
        n > 0,
    ensures
        r.tree() == and_chain(*old(st), e.tree(), k as nat, n),
        *final(st) == state_after(*old(st), k as nat),
{
    let ghost s0 = *st;
    let mut cur: Spec = e;
    let mut j: u64 = 0;
    while j < k
        invariant
            n > 0,
            j <= k,
            cur.tree() == and_chain(s0, e.tree(), j as nat, n),
            *st == state_after(s0, j as nat),
        decreases k - j,
    {
        let l: Spec = pick_leaf(st, n);
        cur = and(list2(cur, l));
        j = j + 1;
    }
    cur
}

fn gen_diff_chain(st: &mut u64, e: Spec, k: u64, n: usize) -> (r: Spec)
    requires
        n > 0,
    ensures
        r.tree() == diff_chain(*old(st), e.tree(), k as nat, n),
        *final(st) == state_after(*old(st), k as nat),
{
    let ghost s0 = *st;
    let mut cur: Spec = e;
    let mut j: u64 = 0;
    while j < k
        invariant
            n > 0,
            j <= k,
            cur.tree() == diff_chain(s0, e.tree(), j as nat, n),
            *st == state_after(s0, j as nat),
        decreases k - j,
    {
        let l: Spec = pick_leaf(st, n);
        cur = diff(cur, l);
        j = j + 1;
    }
    cur
}

fn gen_diffs(st: &mut u64, k: usize, n: usize) -> (r: Vec<Spec>)
    requires
        n > 0,
    ensures
        trees(r@) == diffs(*old(st), k as nat, n),
        *final(st) == state_after(*old(st), 2 * (k as nat)),
{
    let ghost s0 = *st;
    let mut out: Vec<Spec> = Vec::new();
    let mut j: usize = 0;
    assert(trees(out@) =~= diffs(s0, 0, n));
    while j < k
        invariant
            n > 0,
            j <= k,
            trees(out@) == diffs(s0, j as nat, n),
            *st == state_after(s0, 2 * (j as nat)),
        decreases k - j,
    {
        let ghost before = out@;
        let a: Spec = pick_leaf(st, n);
        let b: Spec = pick_leaf(st, n);
        let c: Spec = diff(a, b);
        proof {
            lemma_trees_push(before, c);
            reveal_with_fuel(state_after, 3);
            assert(state_after(s0, (2 * j + 1) as nat) == next_state(
                state_after(s0, (2 * j) as nat),
            ));
            assert(state_after(s0, (2 * j + 2) as nat) == next_state(
                state_after(s0, (2 * j + 1) as nat),
            ));
            assert(diffs(s0, j as nat, n).push(c.tree()) =~= diffs(s0, (j + 1) as nat, n));
        }
        out.push(c);
        j = j + 1;
    }
    out
}

fn repeated(x: usize, k: usize) -> (r: Vec<Spec>)
    ensures
        trees(r@) == Seq::new(k as nat, |j: int| Tree::Leaf(x)),
{
    let mut out: Vec<Spec> = Vec::new();
    let mut j: usize = 0;
    assert(trees(out@) =~= Seq::new(0, |i: int| Tree::Leaf(x)));
    while j < k
        invariant
            j <= k,
            trees(out@) == Seq::new(j as nat, |i: int| Tree::Leaf(x)),
        decreases k - j,
    {
        let ghost before = out@;
        let c: Spec = leaf(x);
        proof {
            lemma_trees_push(before, c);
            assert(trees(before).push(c.tree()) =~= Seq::new(
                (j + 1) as nat,
                |i: int| Tree::Leaf(x),
            ));
        }
        out.push(c);
        j = j + 1;
    }
    out
}

/// A tree of one of the shape families.
pub fn gen_family(st: &mut u64, n: usize) -> (r: Spec)
    requires
        n > 0,
    ensures
        (r.tree(), *final(st)) == family(*old(st), n),
{
    let c: u64 = splitmix64(st) % 10;
    if c == 0 {
        let a: Spec = pick_leaf(st, n);
        let b: Spec = pick_leaf(st, n);
        let d: Spec = pick_leaf(st, n);
        let inner: Spec = and(list2(a, or(list2(b, d))));
        let last: Spec = pick_leaf(st, n);
        or(list2(inner, last))
    } else if c == 1 {
        let e: Spec = pick_leaf(st, n);
        let k: u64 = 8 + splitmix64(st) % 16;
        gen_and_chain(st, e, k, n)
    } else if c == 2 {
        let w: usize = 16 + (splitmix64(st) as usize) % 33;
        let kids: Vec<Spec> = pick_leaves(st, w, n);
        if splitmix64(st) % 2 == 0 {
            or(kids)
        } else {
            and(kids)
        }
    } else if c == 3 {
        let x: usize = (splitmix64(st) as usize) % n;
        let kids: Vec<Spec> = pick_leaves(st, 6, n);
        and(list2(diff(leaf(x), leaf(x)), or(kids)))
    } else if c == 4 {
        let x: usize = (splitmix64(st) as usize) % n;
        let k: usize = 2 + (splitmix64(st) as usize) % 5;
        let kids: Vec<Spec> = repeated(x, k);
        if splitmix64(st) % 2 == 0 {
            and(kids)
        } else {
            or(kids)
        }
    } else if c == 5 {
        let e: Spec = pick_leaf(st, n);
        let k: u64 = 2 + splitmix64(st) % 4;
        gen_diff_chain(st, e, k, n)
    } else if c == 6 {
        let a: usize = 17 + (splitmix64(st) as usize) % 2;
        let b: usize = 21 + (splitmix64(st) as usize) % 3;
        and(list2(leaf(a), leaf(b)))
    } else if c == 7 {
        let l: Spec = pick_leaf(st, n);
        and(list2(diff(leaf(24), leaf(25)), l))
    } else if c == 8 {
        let a: Spec = pick_leaf(st, n);
        let b: Spec = pick_leaf(st, n);
        and(list3(leaf(26), a, b))
    } else {
        let k: usize = 3 + (splitmix64(st) as usize) % 4;
        or(gen_diffs(st, k, n))
    }
}

// --- named shapes -------------------------------------------------------------------------

/// A leaf.
pub open spec fn lf(i: usize) -> Tree {
    Tree::Leaf(i)
}

/// Intersection of unions.
pub open spec fn cnf3() -> Tree {
    Tree::And(
        seq![
            Tree::Or(seq![lf(0), lf(1), lf(6)]),
            Tree::Or(seq![lf(2), lf(7)]),
            Tree::Or(seq![lf(10), lf(11)]),
        ],
    )
}

/// Nested intersections, which flatten to one over five operands.
pub open spec fn conj5() -> Tree {
    Tree::And(
        seq![Tree::And(seq![lf(6), lf(7)]), lf(8), Tree::And(seq![lf(9), lf(12)])],
    )
}

/// A base set, within a union of domains and a universe without a language.
pub open spec fn filter() -> Tree {
    Tree::And(
        seq![lf(12), Tree::Or(seq![lf(0), lf(1), lf(2), lf(3)]), minus(lf(13), lf(10))],
    )
}

/// Union of intersections and a leaf.
pub open spec fn dnf() -> Tree {
    Tree::Or(
        seq![Tree::And(seq![lf(6), lf(7)]), Tree::And(seq![lf(8), lf(9)]), lf(4)],
    )
}

/// The named shapes.
pub open spec fn shapes() -> Seq<(Seq<char>, Tree)> {
    seq![("cnf3"@, cnf3()), ("conj5"@, conj5()), ("filter"@, filter()), ("dnf"@, dnf())]
}

/// Named realistic shapes over the mixed pool.
pub fn named() -> (r: Vec<(&'static str, Spec)>)
    ensures
        r.len() == 4,
        forall|i: int| 0 <= i < 4 ==> ((#[trigger] r[i]).0@, r[i].1.tree()) == shapes()[i],
{
    let a: Spec = and(
        list3(
            or(list3(leaf(0), leaf(1), leaf(6))),
            or(list2(leaf(2), leaf(7))),
            or(list2(leaf(10), leaf(11))),
        ),
    );
    let b: Spec = and(
        list3(and(list2(leaf(6), leaf(7))), leaf(8), and(list2(leaf(9), leaf(12)))),
    );
    let c: Spec = and(
        list3(
            leaf(12),
            or(list4(leaf(0), leaf(1), leaf(2), leaf(3))),
            diff(leaf(13), leaf(10)),
        ),
    );
    let d: Spec = or(
        list3(and(list2(leaf(6), leaf(7))), and(list2(leaf(8), leaf(9))), leaf(4)),
    );
    vec![("cnf3", a), ("conj5", b), ("filter", c), ("dnf", d)]
}

// --- the corpus ---------------------------------------------------------------------------

/// State that the corpus starts from.
pub const CORPUS_SEED: u64 = 0x00C0_2B05_2026;

/// Leaf budget of a tree: plenty of small trees, a long large tail.
pub open spec fn budget(c: u64, x: u64) -> usize {
    if c <= 4 {
        (2 + index(x, 9)) as usize
    } else if c <= 7 {
        (10 + index(x, 31)) as usize
    } else {
        (40 + index(x, 61)) as usize
    }
}

/// A tree under a budget, a depth and a profile that are drawn first.
pub open spec fn profiled(s: u64, n: usize) -> (Tree, u64) {
    let x = |k: nat| draw(s, k);
    shaped(
        state_after(s, 7),
        budget(x(0) % 10, x(1)),
        (1 + index(x(2), 14)) as nat,
        Profile {
            leaf_pct: x(3) % 45,
            diff_pct: x(4) % 35,
            or_pct: (20 + x(5) % 60) as u64,
            wide: x(6) % 3 == 0,
        },
        n,
    )
}

/// `k` profiled trees.
pub open spec fn profiled_all(s: u64, k: nat, n: usize) -> (Seq<Tree>, u64)
    decreases k,
{
    if k == 0 {
        (Seq::empty(), s)
    } else {
        let (ts, s1) = profiled_all(s, (k - 1) as nat, n);
        let (t, s2) = profiled(s1, n);
        (ts.push(t), s2)
    }
}

/// `k` pillars.
pub open spec fn pillar_all(s: u64, k: nat, n: usize) -> (Seq<Tree>, u64)
    decreases k,
{
    if k == 0 {
        (Seq::empty(), s)
    } else {
        let (ts, s1) = pillar_all(s, (k - 1) as nat, n);
        let (t, s2) = pillar(s1, n);
        (ts.push(t), s2)
    }
}

/// `k` trees of the shape families.
pub open spec fn family_all(s: u64, k: nat, n: usize) -> (Seq<Tree>, u64)
    decreases k,
{
    if k == 0 {
        (Seq::empty(), s)
    } else {
        let (ts, s1) = family_all(s, (k - 1) as nat, n);
        let (t, s2) = family(s1, n);
        (ts.push(t), s2)
    }
}

/// Pillars of a corpus.
pub open spec fn pillars(n_trees: nat) -> nat {
    if n_trees < 100 {
        n_trees
    } else {
        100
    }
}

/// The corpus: profiled trees, pillars, and as many trees again of the shape families.
pub open spec fn corpus(n_trees: nat, n: usize) -> Seq<Tree> {
    let p = pillars(n_trees);
    let (a, s1) = profiled_all(CORPUS_SEED, (n_trees - p) as nat, n);
    let (b, s2) = pillar_all(s1, p, n);
    let (c, s3) = family_all(s2, n_trees, n);
    a + b + c
}

fn gen_one(st: &mut u64, n: usize) -> (r: Spec)
    requires
        n > 0,
    ensures
        (r.tree(), *final(st)) == profiled(*old(st), n),
{
    let ghost s0 = *st;
    proof {
        reveal_with_fuel(state_after, 8);
    }
    let c: u64 = splitmix64(st) % 10;
    let x: usize = splitmix64(st) as usize;
    let budget: usize = if c <= 4 {
        2 + x % 9
    } else if c <= 7 {
        10 + x % 31
    } else {
        40 + x % 61
    };
    // 2 to 15 levels, the leaves being one of them.
    let depth: usize = 1 + (splitmix64(st) as usize) % 14;
    let leaf_pct: u64 = splitmix64(st) % 45;
    let diff_pct: u64 = splitmix64(st) % 35;
    let or_pct: u64 = 20 + splitmix64(st) % 60;
    let wide: bool = splitmix64(st) % 3 == 0;
    let prof: Profile = Profile { leaf_pct, diff_pct, or_pct, wide };
    gen_profiled(st, budget, depth, &prof, n)
}

/// The corpus of `2 * n_trees` trees: up to 100 pillars among the first half, which is
/// otherwise profiled trees, of up to [`LEAVES`] leaves and [`DEPTH`] levels each; the second
/// half is of the shape families.
pub fn corpus_specs(n_trees: usize, pool_len: usize) -> (r: Vec<Spec>)
    requires
        pool_len > 0,
    ensures
        trees(r@) == corpus(n_trees as nat, pool_len),
{
    let mut st: u64 = CORPUS_SEED;
    let p: usize = if n_trees < 100 {
        n_trees
    } else {
        100
    };
    let mut out: Vec<Spec> = Vec::new();
    let mut k: usize = 0;
    while k < n_trees - p
        invariant
            pool_len > 0,
            p <= n_trees,
            k <= n_trees - p,
            (trees(out@), st) == profiled_all(CORPUS_SEED, k as nat, pool_len),
        decreases n_trees - p - k,
    {
        let ghost before = out@;
        let c: Spec = gen_one(&mut st, pool_len);
        out.push(c);
        proof {
            lemma_trees_push(before, c);
        }
        k = k + 1;
    }
    let ghost (a, s1) = (trees(out@), st);
    let mut k: usize = 0;
    assert(a + pillar_all(s1, 0, pool_len).0 =~= trees(out@));
    while k < p
        invariant
            pool_len > 0,
            k <= p,
            ({
                let q = pillar_all(s1, k as nat, pool_len);
                (trees(out@), st) == (a + q.0, q.1)
            }),
        decreases p - k,
    {
        let ghost before = out@;
        let c: Spec = gen_pillar(&mut st, pool_len);
        out.push(c);
        proof {
            lemma_trees_push(before, c);
            let (q0, q) = (
                pillar_all(s1, k as nat, pool_len),
                pillar_all(s1, (k + 1) as nat, pool_len),
            );
            assert(trees(out@) =~= a + q.0);
        }
        k = k + 1;
    }
    let ghost (ab, s2) = (trees(out@), st);
    let mut k: usize = 0;
    assert(ab + family_all(s2, 0, pool_len).0 =~= trees(out@));
    while k < n_trees
        invariant
            pool_len > 0,
            k <= n_trees,
            ({
                let q = family_all(s2, k as nat, pool_len);
                (trees(out@), st) == (ab + q.0, q.1)
            }),
        decreases n_trees - k,
    {
        let ghost before = out@;
        let c: Spec = gen_family(&mut st, pool_len);
        out.push(c);
        proof {
            lemma_trees_push(before, c);
            let (q0, q) = (
                family_all(s2, k as nat, pool_len),
                family_all(s2, (k + 1) as nat, pool_len),
            );
            assert(trees(out@) =~= ab + q.0);
        }
        k = k + 1;
    }
    out
}

// --- the pool -----------------------------------------------------------------------------

/// State that the pool starts from.
pub const POOL_SEED: u64 = 0x5EED_1234;

/// Entries of the mixed pool.
pub const POOL_LEN: usize = 27;

/// Entry `i` of the mixed pool.
pub open spec fn mixed_set(i: int) -> Set<u32> {
    if i < 6 {
        // Small arrays.
        scatter_set(state_after(POOL_SEED, (i * 1200) as nat), 0, 8, 150, whole(0))
    } else if i < 10 {
        // Medium arrays.
        scatter_set(state_after(POOL_SEED, (7200 + (i - 6) * 57600) as nat), 0, 48, 1200, whole(0))
    } else if i < 14 {
        // Bitmaps.
        scatter_set(
            state_after(POOL_SEED, (237600 + (i - 10) * 384000) as nat),
            0,
            32,
            12000,
            whole(((i - 10) * 777) as u32),
        )
    } else if i < 17 {
        // A few long runs.
        ranges_set(0, 20, block_ranges(3000 + (i - 14) * 1500, 5000))
    } else if i < 19 {
        // Tiny and scattered: inline.
        steps_set(1, (i - 17) * 13, 997, 40)
    } else if i == 19 {
        // One dense container.
        steps_set(1, 0, 1, 9000)
    } else if i == 20 {
        // One full container.
        steps_set(1, 0, 1, 65536)
    } else if i < 24 {
        // Disjoint key bands.
        steps_set(1, (600 + (i - 21) * 200) * 65536, 7, 4000)
    } else if i == 24 {
        // Runs, and a bitmap over the same keys.
        steps_set(12, 0, 1, 20000)
    } else if i == 25 {
        steps_set(12, 0, 2, 30000)
    } else {
        // A handful of values over many keys.
        steps_set(1, 0, 65637, 24)
    }
}

/// The first entries of the pool, each ascending.
pub open spec fn first_entries(inputs: Seq<Vec<u32>>, k: int) -> bool {
    &&& inputs.len() == k
    &&& forall|i: int| 0 <= i < k ==> asc32(#[trigger] inputs[i]@)
    &&& forall|i: int| 0 <= i < k ==> (#[trigger] inputs[i])@.to_set() == mixed_set(i)
}

/// The random entries.
fn random_entries() -> (r: Vec<Vec<u32>>)
    ensures
        first_entries(r@, 14),
{
    let mut st: u64 = POOL_SEED;
    let mut out: Vec<Vec<u32>> = Vec::new();
    let mut i: u32 = 0;
    while i < 6
        invariant
            i <= 6,
            first_entries(out@, i as int),
            st == state_after(POOL_SEED, (i * 1200) as nat),
        decreases 6 - i,
    {
        proof {
            lemma_state_after(POOL_SEED, (i * 1200) as nat, 1200);
        }
        out.push(arrays(8, 150, &mut st));
        i = i + 1;
    }
    let mut i: u32 = 0;
    while i < 4
        invariant
            i <= 4,
            first_entries(out@, 6 + i),
            st == state_after(POOL_SEED, (7200 + i * 57600) as nat),
        decreases 4 - i,
    {
        proof {
            lemma_state_after(POOL_SEED, (7200 + i * 57600) as nat, 57600);
        }
        out.push(arrays(48, 1200, &mut st));
        i = i + 1;
    }
    let mut i: u32 = 0;
    while i < 4
        invariant
            i <= 4,
            first_entries(out@, 10 + i),
            st == state_after(POOL_SEED, (237600 + i * 384000) as nat),
        decreases 4 - i,
    {
        proof {
            lemma_state_after(POOL_SEED, (237600 + i * 384000) as nat, 384000);
        }
        out.push(dense(32, 12000, i * 777, &mut st));
        i = i + 1;
    }
    out
}

/// The values of the mixed pool.
pub fn mixed_inputs() -> (r: Vec<Vec<u32>>)
    ensures
        first_entries(r@, POOL_LEN as int),
{
    let mut inputs: Vec<Vec<u32>> = random_entries();
    let mut i: u32 = 0;
    while i < 3
        invariant
            i <= 3,
            first_entries(inputs@, 14 + i),
        decreases 3 - i,
    {
        inputs.push(runs(20, 3000 + i * 1500, 5000));
        i = i + 1;
    }
    inputs.push(steps(1, 0, 997, 40));
    inputs.push(steps(1, 13, 997, 40));
    inputs.push(steps(1, 0, 1, 9000));
    inputs.push(steps(1, 0, 1, 65536));
    let mut i: u32 = 0;
    while i < 3
        invariant
            i <= 3,
            first_entries(inputs@, 21 + i),
        decreases 3 - i,
    {
        inputs.push(steps(1, (600 + i * 200) * 65536, 7, 4000));
        i = i + 1;
    }
    inputs.push(steps(12, 0, 1, 20000));
    inputs.push(steps(12, 0, 2, 30000));
    inputs.push(steps(1, 0, 65637, 24));
    inputs
}

/// Mixed-shape pool: small and medium arrays, bitmaps, runs, inline sets and the
/// boundaries between them, so that trees exercise every container type and fold path.
pub fn mixed_pool() -> (r: Workload)
    ensures
        r.wf(),
        r.sets() == Seq::new(POOL_LEN as nat, |i: int| mixed_set(i)),
{
    let inputs: Vec<Vec<u32>> = mixed_inputs();
    let r: Workload = Workload::new(inputs.as_slice());
    assert(r.sets() =~= Seq::new(POOL_LEN as nat, |i: int| mixed_set(i)));
    r
}

// --- what the generators promise ------------------------------------------------------------

/// A budgeted tree only names pool entries.
pub proof fn law_grown(s: u64, budget: nat, n: usize)
    requires
        n > 0,
    ensures
        grown(s, budget, n).0.within(n as nat),
    decreases budget, 0nat,
{
    if budget > 1 {
        let s1 = next_state(s);
        if rnd(s) % 5 == 0 {
            law_grown(s1, budget / 2, n);
            law_grown(grown(s1, budget / 2, n).1, budget / 2, n);
        } else {
            let k = 2 + (rnd(s1) % 3) as nat;
            assert(budget / k <= budget / 2) by (nonlinear_arith)
                requires
                    2 <= k,
            ;
            let per = if budget / k > 1 {
                budget / k
            } else {
                1
            };
            lemma_grown_all(next_state(s1), k, per, n);
        }
    }
}

proof fn lemma_grown_all(s: u64, k: nat, per: nat, n: usize)
    requires
        n > 0,
    ensures
        all_within(grown_all(s, k, per, n).0, n as nat),
    decreases per, k + 1,
{
    if k > 0 {
        lemma_grown_all(s, (k - 1) as nat, per, n);
        let (ts, s1) = grown_all(s, (k - 1) as nat, per, n);
        law_grown(s1, per, n);
        assert(ts.push(grown(s1, per, n).0).drop_last() =~= ts);
    }
}

/// The most leaves that a budget allows.
pub open spec fn allowance(budget: usize) -> nat {
    if budget > 1 {
        budget as nat
    } else {
        1
    }
}

/// A profiled tree has no more leaves than its budget (and one at least), no more than
/// `depth` levels above its leaves, and only names pool entries.
pub proof fn law_shaped(s: u64, budget: usize, depth: nat, prof: Profile, n: usize)
    requires
        n > 0,
    ensures
        1 <= shaped(s, budget, depth, prof, n).0.leaves() <= allowance(budget),
        shaped(s, budget, depth, prof, n).0.depth() <= depth + 1,
        shaped(s, budget, depth, prof, n).0.within(n as nat),
    decreases depth, 0nat,
{
    let s1 = next_state(s);
    let s2 = next_state(s1);
    let r = rnd(s1) % 100;
    if budget <= 1 || depth == 0 || rnd(s) % 100 < prof.leaf_pct {
    } else if r < prof.diff_pct {
        let l = (1 + index(rnd(s2), (budget - 1) as usize)) as usize;
        let a = shaped(next_state(s2), l, (depth - 1) as nat, prof, n);
        law_shaped(next_state(s2), l, (depth - 1) as nat, prof, n);
        law_shaped(a.1, (budget - l) as usize, (depth - 1) as nat, prof, n);
    } else {
        let s3 = if prof.wide {
            next_state(s2)
        } else {
            s2
        };
        let range = width_range(max_width(s2, budget as nat, prof), budget as nat);
        let w = (2 + index(rnd(s3), range as usize)) as nat;
        let s4 = next_state(s3);
        let (s5, cs) = (
            state_after(s4, (w - 1) as nat),
            cuts(s4, (w - 1) as nat, budget),
        );
        lemma_shares(s5, cs, 0, budget, (depth - 1) as nat, prof, n);
        let ts = shares(s5, cs, 0, budget, (depth - 1) as nat, prof, n).0;
        if ts.len() == 1 {
            lemma_single(ts[0], n as nat);
            assert(ts =~= seq![ts[0]]);
        }
    }
}

proof fn lemma_shares(
    s: u64,
    cuts: Seq<usize>,
    prev: usize,
    budget: usize,
    depth: nat,
    prof: Profile,
    n: usize,
)
    requires
        n > 0,
        prev <= budget,
    ensures
        ({
            let ts = shares(s, cuts, prev, budget, depth, prof, n).0;
            &&& (if prev < budget {
                1
            } else {
                0int
            }) <= all_leaves(ts) <= budget - prev
            &&& deepest(ts) <= depth + 1
            &&& all_within(ts, n as nat)
        }),
    decreases depth, budget - prev,
{
    if prev < budget {
        lemma_next_cut(cuts, prev as int, budget as int);
        let cut = next_cut(cuts, prev as int, budget as int) as usize;
        let (t, s1) = shaped(s, (cut - prev) as usize, depth, prof, n);
        law_shaped(s, (cut - prev) as usize, depth, prof, n);
        lemma_shares(s1, cuts, cut, budget, depth, prof, n);
        lemma_single(t, n as nat);
        lemma_append(
            seq![t],
            shares(s1, cuts, cut, budget, depth, prof, n).0,
            n as nat,
        );
    }
}

proof fn lemma_picks(s: u64, k: nat, n: usize)
    requires
        n > 0,
    ensures
        all_leaves(picks(s, k, n)) == k,
        deepest(picks(s, k, n)) <= 1,
        all_within(picks(s, k, n), n as nat),
{
    lemma_each(picks(s, k, n), n as nat);
}

/// The measures of a difference with a leaf of an output.
proof fn lemma_minus(t: Tree, i: usize, n: nat)
    ensures
        ({
            let l = Tree::Leaf(i);
            &&& minus(t, l).leaves() == t.leaves() + 1
            &&& minus(l, t).leaves() == t.leaves() + 1
            &&& t.depth() >= 1 ==> minus(t, l).depth() == t.depth() + 1
            &&& t.depth() >= 1 ==> minus(l, t).depth() == t.depth() + 1
            &&& minus(t, l).within(n) <==> t.within(n) && i < n
            &&& minus(l, t).within(n) <==> t.within(n) && i < n
        }),
{
    let l = Tree::Leaf(i);
    assert(l.leaves() == 1 && l.depth() == 1);
    assert(l.within(n) <==> i < n);
}

/// A tree put among leaves.
proof fn lemma_among(ls: Seq<Tree>, t: Tree, at: int, n: nat)
    requires
        0 <= at <= ls.len(),
        all_within(ls, n),
        t.within(n),
        deepest(ls) <= 1,
        t.depth() >= 1,
    ensures
        all_leaves(ls.insert(at, t)) == all_leaves(ls) + t.leaves(),
        deepest(ls.insert(at, t)) == t.depth(),
        all_within(ls.insert(at, t), n),
{
    let (a, b) = (ls.take(at), ls.skip(at));
    let tb = seq![t] + b;
    assert(ls =~= a + b);
    assert(ls.insert(at, t) =~= a + tb);
    lemma_append(a, b, n);
    lemma_single(t, n);
    lemma_append(seq![t], b, n);
    lemma_append(a, tb, n);
}

proof fn lemma_raised(s: u64, t: Tree, m: nat, n: usize)
    requires
        n > 0,
        1 <= m < usize::MAX,
        t.within(n as nat),
        t.depth() >= 1,
    ensures
        raised(s, t, m, n).0.leaves() == t.leaves() + m,
        raised(s, t, m, n).0.depth() == t.depth() + 1,
        raised(s, t, m, n).0.within(n as nat),
{
    let r = rnd(s) % 100;
    let s1 = next_state(s);
    if r < 20 && m == 1 {
        lemma_minus(t, index(rnd(s1), n), n as nat);
    } else {
        let s2 = state_after(s1, m);
        let (ls, at) = (picks(s1, m, n), index(rnd(s2), (m + 1) as usize) as int);
        lemma_picks(s1, m, n);
        lemma_among(ls, t, at, n as nat);
    }
}

proof fn lemma_spine(s: u64, extra: Seq<usize>, k: nat, n: usize)
    requires
        n > 0,
        k <= extra.len(),
        forall|i: int| 0 <= i < extra.len() ==> 1 <= #[trigger] extra[i] < usize::MAX,
    ensures
        spine(s, extra, k, n).0.leaves() == 1 + total(extra.take(k as int)),
        spine(s, extra, k, n).0.depth() == 1 + k,
        spine(s, extra, k, n).0.within(n as nat),
    decreases k,
{
    if k > 0 {
        lemma_spine(s, extra, (k - 1) as nat, n);
        let (t, s1) = spine(s, extra, (k - 1) as nat, n);
        assert(1 <= extra[k - 1] < usize::MAX);
        lemma_raised(s1, t, extra[k - 1] as nat, n);
        assert(extra.take(k as int).drop_last() =~= extra.take(k - 1));
    }
}

/// A pillar has exactly [`LEAVES`] leaves and [`DEPTH`] levels, and only names pool entries.
pub proof fn law_pillar(s: u64, n: usize)
    requires
        n > 0,
    ensures
        pillar(s, n).0.leaves() == LEAVES,
        pillar(s, n).0.depth() == DEPTH,
        pillar(s, n).0.within(n as nat),
{
    let extra = hung(s, scattered());
    lemma_hung(s, scattered());
    assert forall|i: int| 0 <= i < extra.len() implies 1 <= #[trigger] extra[i] < usize::MAX by {
        assert(1 <= hung(s, scattered())[i] <= 1 + scattered());
    }
    lemma_spine(state_after(s, scattered()), extra, SPINE as nat, n);
    assert(extra.take(SPINE as int) =~= extra);
}

proof fn lemma_chains(s: u64, t: Tree, k: nat, n: usize, m: nat)
    requires
        n > 0,
        n <= m,
        t.within(m),
    ensures
        and_chain(s, t, k, n).within(m),
        diff_chain(s, t, k, n).within(m),
    decreases k,
{
    if k > 0 {
        lemma_chains(s, t, (k - 1) as nat, n, m);
        lemma_each(
            seq![and_chain(s, t, (k - 1) as nat, n), Tree::Leaf(
                index(draw(s, (k - 1) as nat), n),
            )],
            m,
        );
    }
}

proof fn lemma_two(a: Tree, b: Tree, n: nat)
    requires
        a.within(n),
        b.within(n),
    ensures
        Tree::And(seq![a, b]).within(n),
        Tree::Or(seq![a, b]).within(n),
{
    lemma_each(seq![a, b], n);
}

/// A tree of the shape families only names entries of a pool that holds the fixed ones: the
/// first 27.
pub proof fn law_family(s: u64, n: usize)
    requires
        n >= 27,
    ensures
        family(s, n).0.within(n as nat),
{
    let m = n as nat;
    let s1 = next_state(s);
    let s2 = next_state(s1);
    let s3 = next_state(s2);
    let s4 = next_state(s3);
    let c = rnd(s) % 10;
    if c == 0 {
        lemma_two(pick(s2, n), pick(s3, n), m);
        let inner = Tree::Or(seq![pick(s2, n), pick(s3, n)]);
        lemma_two(pick(s1, n), inner, m);
        lemma_two(Tree::And(seq![pick(s1, n), inner]), pick(s4, n), m);
    } else if c == 1 {
        lemma_chains(s3, pick(s1, n), (8 + rnd(s2) % 16) as nat, n, m);
    } else if c == 2 {
        lemma_picks(s2, (16 + index(rnd(s1), 33)) as nat, n);
    } else if c == 3 {
        let x = pick(s1, n);
        lemma_minus(x, index(rnd(s1), n), m);
        lemma_picks(s2, 6, n);
        lemma_two(minus(x, x), Tree::Or(picks(s2, 6, n)), m);
    } else if c == 4 {
        lemma_each(Seq::new((2 + index(rnd(s2), 5)) as nat, |j: int| pick(s1, n)), m);
    } else if c == 5 {
        lemma_chains(s3, pick(s1, n), (2 + rnd(s2) % 4) as nat, n, m);
    } else if c == 6 {
        lemma_two(
            Tree::Leaf((17 + index(rnd(s1), 2)) as usize),
            Tree::Leaf((21 + index(rnd(s2), 3)) as usize),
            m,
        );
    } else if c == 7 {
        lemma_minus(Tree::Leaf(24), 25, m);
        lemma_two(minus(Tree::Leaf(24), Tree::Leaf(25)), pick(s1, n), m);
    } else if c == 8 {
        lemma_each(seq![Tree::Leaf(26), pick(s1, n), pick(s2, n)], m);
    } else {
        lemma_diffs(s2, (3 + index(rnd(s1), 4)) as nat, n);
    }
}

proof fn lemma_diffs(s: u64, k: nat, n: usize)
    requires
        n > 0,
    ensures
        all_within(diffs(s, k, n), n as nat),
{
    let ts = diffs(s, k, n);
    assert forall|j: int| 0 <= j < ts.len() implies (#[trigger] ts[j]).within(n as nat) by {
        let (a, b) = (
            index(draw(s, (2 * j) as nat), n),
            index(draw(s, (2 * j + 1) as nat), n),
        );
        lemma_minus(Tree::Leaf(a), b, n as nat);
    }
    lemma_each(ts, n as nat);
}

proof fn lemma_profiled_all(s: u64, k: nat, n: usize)
    requires
        n > 0,
    ensures
        profiled_all(s, k, n).0.len() == k,
        forall|i: int|
            0 <= i < k ==> {
                let t = #[trigger] profiled_all(s, k, n).0[i];
                &&& 1 <= t.leaves() <= LEAVES
                &&& t.depth() <= DEPTH
                &&& t.within(n as nat)
            },
    decreases k,
{
    if k > 0 {
        lemma_profiled_all(s, (k - 1) as nat, n);
        let (ts, s1) = profiled_all(s, (k - 1) as nat, n);
        let x = |j: nat| draw(s1, j);
        law_shaped(
            state_after(s1, 7),
            budget(x(0) % 10, x(1)),
            (1 + index(x(2), 14)) as nat,
            Profile {
                leaf_pct: x(3) % 45,
                diff_pct: x(4) % 35,
                or_pct: (20 + x(5) % 60) as u64,
                wide: x(6) % 3 == 0,
            },
            n,
        );
        let all = profiled_all(s, k, n).0;
        assert forall|i: int| 0 <= i < k implies {
            let t = #[trigger] all[i];
            &&& 1 <= t.leaves() <= LEAVES
            &&& t.depth() <= DEPTH
            &&& t.within(n as nat)
        } by {
            if i < k - 1 {
                assert(all[i] == ts[i]);
            }
        }
    }
}

proof fn lemma_pillar_all(s: u64, k: nat, n: usize)
    requires
        n > 0,
    ensures
        pillar_all(s, k, n).0.len() == k,
        forall|i: int|
            0 <= i < k ==> {
                let t = #[trigger] pillar_all(s, k, n).0[i];
                &&& t.leaves() == LEAVES
                &&& t.depth() == DEPTH
                &&& t.within(n as nat)
            },
    decreases k,
{
    if k > 0 {
        lemma_pillar_all(s, (k - 1) as nat, n);
        let (ts, s1) = pillar_all(s, (k - 1) as nat, n);
        law_pillar(s1, n);
        let all = pillar_all(s, k, n).0;
        assert forall|i: int| 0 <= i < k implies {
            let t = #[trigger] all[i];
            &&& t.leaves() == LEAVES
            &&& t.depth() == DEPTH
            &&& t.within(n as nat)
        } by {
            if i < k - 1 {
                assert(all[i] == ts[i]);
            }
        }
    }
}

proof fn lemma_family_all(s: u64, k: nat, n: usize)
    ensures
        family_all(s, k, n).0.len() == k,
        n >= 27 ==> forall|i: int|
            0 <= i < k ==> (#[trigger] family_all(s, k, n).0[i]).within(n as nat),
    decreases k,
{
    if k > 0 {
        lemma_family_all(s, (k - 1) as nat, n);
        let (ts, s1) = family_all(s, (k - 1) as nat, n);
        if n >= 27 {
            law_family(s1, n);
            let all = family_all(s, k, n).0;
            assert forall|i: int| 0 <= i < k implies (#[trigger] all[i]).within(n as nat) by {
                if i < k - 1 {
                    assert(all[i] == ts[i]);
                }
            }
        }
    }
}

/// The corpus has two trees for each one asked for. No tree of the first half is past the
/// leaves of a pillar or its depth, and the last up to a hundred of that half are of exactly
/// those extremes. Over a pool that holds the fixed entries every
/// tree only names pool entries.
pub proof fn law_corpus(n_trees: nat, n: usize)
    requires
        n > 0,
    ensures
        corpus(n_trees, n).len() == 2 * n_trees,
        forall|i: int|
            0 <= i < n_trees ==> {
                let t = #[trigger] corpus(n_trees, n)[i];
                &&& 1 <= t.leaves() <= LEAVES
                &&& t.depth() <= DEPTH
                &&& t.within(n as nat)
            },
        forall|i: int|
            n_trees - pillars(n_trees) <= i < n_trees ==> {
                let t = #[trigger] corpus(n_trees, n)[i];
                &&& t.leaves() == LEAVES
                &&& t.depth() == DEPTH
            },
        n >= 27 ==> all_within(corpus(n_trees, n), n as nat),
{
    let p = pillars(n_trees);
    let m = (n_trees - p) as nat;
    let (a, s1) = profiled_all(CORPUS_SEED, m, n);
    let (b, s2) = pillar_all(s1, p, n);
    let c = family_all(s2, n_trees, n).0;
    lemma_profiled_all(CORPUS_SEED, m, n);
    lemma_pillar_all(s1, p, n);
    lemma_family_all(s2, n_trees, n);
    let all = corpus(n_trees, n);
    assert(all == a + b + c);
    assert(forall|i: int| 0 <= i < m ==> #[trigger] all[i] == a[i]);
    assert(forall|i: int| m <= i < n_trees ==> #[trigger] all[i] == b[i - m]);
    assert(forall|i: int| n_trees <= i < all.len() ==> #[trigger] all[i] == c[i - n_trees]);
    lemma_each(all, n as nat);
}

} // verus!
