//! Expression trees over a pool of inputs: their definition, their value in both engines,
//! and the deterministic generators of a corpus of them.
use vstd::prelude::*;

use roaring::RoaringBitmap;

use crate::convert::roaring_set;
use crate::engines::{rb_and, rb_or, roaring_clone, roaring_sets, roaring_sub, Workload};
use crate::expr::{expr_sets, BitmapExpr};
use crate::machine::op_set;
use crate::plan::Op;

verus! {

// --- trees --------------------------------------------------------------------------------

/// A tree over leaf-pool indices, evaluated by either engine.
pub enum Spec {
    Leaf(usize),
    And(Vec<Spec>),
    Or(Vec<Spec>),
    Diff(Box<Spec>, Box<Spec>),
}

/// What a [`Spec`] stands for.
pub enum Tree {
    Leaf(usize),
    And(Seq<Tree>),
    Or(Seq<Tree>),
    Diff(Box<Tree>, Box<Tree>),
}

impl Spec {
    /// The tree.
    pub open spec fn tree(self) -> Tree
        decreases self,
    {
        match self {
            Spec::Leaf(i) => Tree::Leaf(i),
            Spec::And(cs) => Tree::And(trees(cs@)),
            Spec::Or(cs) => Tree::Or(trees(cs@)),
            Spec::Diff(a, b) => Tree::Diff(Box::new(a.tree()), Box::new(b.tree())),
        }
    }
}

/// The trees of a list.
pub open spec fn trees(cs: Seq<Spec>) -> Seq<Tree>
    decreases cs,
{
    if cs.len() == 0 {
        Seq::empty()
    } else {
        trees(cs.drop_last()).push(cs.last().tree())
    }
}

/// The trees of a list, one by one.
pub proof fn lemma_trees(cs: Seq<Spec>)
    ensures
        trees(cs).len() == cs.len(),
        forall|i: int| 0 <= i < cs.len() ==> #[trigger] trees(cs)[i] == cs[i].tree(),
    decreases cs,
{
    if cs.len() > 0 {
        lemma_trees(cs.drop_last());
        assert forall|i: int| 0 <= i < cs.len() implies #[trigger] trees(cs)[i] == cs[i].tree() by {
            if i < cs.len() - 1 {
                assert(cs.drop_last()[i] == cs[i]);
            }
        }
    }
}

/// One more tree.
pub proof fn lemma_trees_push(cs: Seq<Spec>, c: Spec)
    ensures
        trees(cs.push(c)) == trees(cs).push(c.tree()),
{
    assert(cs.push(c).drop_last() =~= cs);
}

/// A leaf.
pub fn leaf(i: usize) -> (r: Spec)
    ensures
        r.tree() == Tree::Leaf(i),
{
    Spec::Leaf(i)
}

/// The intersection of trees.
pub fn and(cs: Vec<Spec>) -> (r: Spec)
    ensures
        r.tree() == Tree::And(trees(cs@)),
{
    Spec::And(cs)
}

/// The union of trees.
pub fn or(cs: Vec<Spec>) -> (r: Spec)
    ensures
        r.tree() == Tree::Or(trees(cs@)),
{
    Spec::Or(cs)
}

/// The first tree without the second.
pub fn diff(a: Spec, b: Spec) -> (r: Spec)
    ensures
        r.tree() == Tree::Diff(Box::new(a.tree()), Box::new(b.tree())),
{
    Spec::Diff(Box::new(a), Box::new(b))
}

// --- measures ---------------------------------------------------------------------------

impl Tree {
    /// Number of leaves.
    pub open spec fn leaves(self) -> nat
        decreases self,
    {
        match self {
            Tree::Leaf(_) => 1,
            Tree::And(ts) => all_leaves(ts),
            Tree::Or(ts) => all_leaves(ts),
            Tree::Diff(a, b) => a.leaves() + b.leaves(),
        }
    }

    /// Number of levels.
    pub open spec fn depth(self) -> nat
        decreases self,
    {
        match self {
            Tree::Leaf(_) => 1,
            Tree::And(ts) => 1 + deepest(ts),
            Tree::Or(ts) => 1 + deepest(ts),
            Tree::Diff(a, b) => 1 + if a.depth() >= b.depth() {
                a.depth()
            } else {
                b.depth()
            },
        }
    }

    /// The leaf indices, in visit order.
    pub open spec fn indices(self) -> Seq<usize>
        decreases self,
    {
        match self {
            Tree::Leaf(i) => seq![i],
            Tree::And(ts) => all_indices(ts),
            Tree::Or(ts) => all_indices(ts),
            Tree::Diff(a, b) => a.indices() + b.indices(),
        }
    }

    /// Every leaf is one of the first `n`.
    pub open spec fn within(self, n: nat) -> bool
        decreases self,
    {
        match self {
            Tree::Leaf(i) => i < n,
            Tree::And(ts) => all_within(ts, n),
            Tree::Or(ts) => all_within(ts, n),
            Tree::Diff(a, b) => a.within(n) && b.within(n),
        }
    }

    /// The set a tree stands for over the sets of a pool.
    pub open spec fn value(self, pool: Seq<Set<u32>>) -> Set<u32>
        decreases self,
    {
        match self {
            Tree::Leaf(i) => pool[i as int],
            Tree::And(ts) => op_set(Op::Intersect, values(ts, pool)),
            Tree::Or(ts) => op_set(Op::Union, values(ts, pool)),
            Tree::Diff(a, b) => a.value(pool).difference(b.value(pool)),
        }
    }
}

/// Number of leaves of a list of trees.
pub open spec fn all_leaves(ts: Seq<Tree>) -> nat
    decreases ts,
{
    if ts.len() == 0 {
        0
    } else {
        all_leaves(ts.drop_last()) + ts.last().leaves()
    }
}

/// Levels of the deepest of a list of trees.
pub open spec fn deepest(ts: Seq<Tree>) -> nat
    decreases ts,
{
    if ts.len() == 0 {
        0
    } else if deepest(ts.drop_last()) >= ts.last().depth() {
        deepest(ts.drop_last())
    } else {
        ts.last().depth()
    }
}

/// The leaf indices of a list of trees.
pub open spec fn all_indices(ts: Seq<Tree>) -> Seq<usize>
    decreases ts,
{
    if ts.len() == 0 {
        Seq::empty()
    } else {
        all_indices(ts.drop_last()) + ts.last().indices()
    }
}

/// Every leaf of every tree is one of the first `n`.
pub open spec fn all_within(ts: Seq<Tree>, n: nat) -> bool
    decreases ts,
{
    ts.len() == 0 || (all_within(ts.drop_last(), n) && ts.last().within(n))
}

/// The sets of a list of trees.
pub open spec fn values(ts: Seq<Tree>, pool: Seq<Set<u32>>) -> Seq<Set<u32>>
    decreases ts,
{
    if ts.len() == 0 {
        Seq::empty()
    } else {
        values(ts.drop_last(), pool).push(ts.last().value(pool))
    }
}

/// The measures of the first children are those of the children together, as far as they
/// add up.
proof fn lemma_take(ts: Seq<Tree>, n: nat, k: int)
    requires
        0 <= k <= ts.len(),
    ensures
        all_leaves(ts.take(k)) <= all_leaves(ts),
        deepest(ts.take(k)) <= deepest(ts),
        all_within(ts, n) ==> all_within(ts.take(k), n),
        k < ts.len() ==> {
            let (a, b) = (ts.take(k), ts.take(k + 1));
            &&& b.drop_last() == a
            &&& b.last() == ts[k]
            &&& all_leaves(b) == all_leaves(a) + ts[k].leaves()
            &&& all_leaves(b) <= all_leaves(ts)
            &&& deepest(b) <= deepest(ts)
            &&& all_within(ts, n) ==> ts[k].within(n)
        },
    decreases ts.len() - k,
{
    if k < ts.len() {
        let (a, b) = (ts.take(k), ts.take(k + 1));
        assert(b.drop_last() =~= a);
        lemma_take(ts, n, k + 1);
    } else {
        assert(ts.take(k) =~= ts);
    }
}

/// The measures of two lists after each other.
pub proof fn lemma_append(a: Seq<Tree>, b: Seq<Tree>, n: nat)
    ensures
        all_leaves(a + b) == all_leaves(a) + all_leaves(b),
        deepest(a + b) == if deepest(a) >= deepest(b) {
            deepest(a)
        } else {
            deepest(b)
        },
        all_within(a + b, n) <==> all_within(a, n) && all_within(b, n),
    decreases b.len(),
{
    if b.len() == 0 {
        assert(a + b =~= a);
    } else {
        lemma_append(a, b.drop_last(), n);
        assert((a + b).drop_last() =~= a + b.drop_last());
    }
}

/// The measures of a list of one.
pub proof fn lemma_single(t: Tree, n: nat)
    ensures
        all_leaves(seq![t]) == t.leaves(),
        deepest(seq![t]) == t.depth(),
        all_within(seq![t], n) <==> t.within(n),
{
    let s = seq![t];
    reveal_with_fuel(all_leaves, 2);
    reveal_with_fuel(deepest, 2);
    reveal_with_fuel(all_within, 2);
    assert(s.drop_last().len() == 0);
    assert(s.last() == t);
    assert(t.depth() >= 1);
}

/// The measures of a list, from those of its trees.
pub proof fn lemma_each(ts: Seq<Tree>, n: nat)
    ensures
        all_within(ts, n) <==> forall|i: int| 0 <= i < ts.len() ==> (#[trigger] ts[i]).within(n),
        (forall|i: int| 0 <= i < ts.len() ==> (#[trigger] ts[i]) is Leaf) ==> all_leaves(ts)
            == ts.len() && deepest(ts) <= 1,
    decreases ts.len(),
{
    if ts.len() > 0 {
        let d = ts.drop_last();
        lemma_each(d, n);
        assert(forall|i: int| 0 <= i < d.len() ==> #[trigger] d[i] == ts[i]);
        if forall|i: int| 0 <= i < ts.len() ==> (#[trigger] ts[i]) is Leaf {
            assert forall|i: int| 0 <= i < d.len() implies (#[trigger] d[i]) is Leaf by {
                assert(ts[i] is Leaf);
            }
            assert(ts[ts.len() - 1] is Leaf);
            assert(all_leaves(d) == d.len() && deepest(d) <= 1);
            assert(ts.last().leaves() == 1 && ts.last().depth() == 1);
        }
        if all_within(ts, n) {
            assert forall|i: int| 0 <= i < ts.len() implies (#[trigger] ts[i]).within(n) by {
                if i < d.len() {
                    assert(d[i] == ts[i]);
                }
            }
        }
    }
}

/// Every index is one of the first `n`.
pub open spec fn below(is: Seq<usize>, n: nat) -> bool {
    forall|i: int| 0 <= i < is.len() ==> #[trigger] is[i] < n
}

/// A tree has one index for each leaf, and is within a pool exactly where each of them is.
pub proof fn law_within(t: Tree, n: nat)
    ensures
        t.within(n) <==> below(t.indices(), n),
        t.indices().len() == t.leaves(),
    decreases t,
{
    match t {
        Tree::Leaf(i) => {
            assert(t.indices() =~= seq![i]);
            assert(seq![i][0] == i);
        },
        Tree::And(ts) => {
            lemma_all_within(ts, n);
        },
        Tree::Or(ts) => {
            lemma_all_within(ts, n);
        },
        Tree::Diff(a, b) => {
            law_within(*a, n);
            law_within(*b, n);
            lemma_below(a.indices(), b.indices(), n);
        },
    }
}

proof fn lemma_below(a: Seq<usize>, b: Seq<usize>, n: nat)
    ensures
        below(a + b, n) <==> below(a, n) && below(b, n),
{
    let c = a + b;
    if below(c, n) {
        assert forall|i: int| 0 <= i < a.len() implies #[trigger] a[i] < n by {
            assert(c[i] == a[i]);
        }
        assert forall|i: int| 0 <= i < b.len() implies #[trigger] b[i] < n by {
            assert(c[a.len() + i] == b[i]);
        }
    }
}

proof fn lemma_all_within(ts: Seq<Tree>, n: nat)
    ensures
        all_within(ts, n) <==> below(all_indices(ts), n),
        all_indices(ts).len() == all_leaves(ts),
    decreases ts,
{
    if ts.len() > 0 {
        lemma_all_within(ts.drop_last(), n);
        law_within(ts.last(), n);
        lemma_below(all_indices(ts.drop_last()), ts.last().indices(), n);
    }
}

/// A leaf is one leaf, a difference has those of both its trees, and one more tree in an
/// intersection or union adds its leaves to those there are.
pub proof fn law_leaves(i: usize, ts: Seq<Tree>, t: Tree, u: Tree)
    ensures
        Tree::Leaf(i).leaves() == 1,
        Tree::Leaf(i).indices() == seq![i],
        Tree::Diff(Box::new(t), Box::new(u)).leaves() == t.leaves() + u.leaves(),
        Tree::And(Seq::empty()).leaves() == 0,
        Tree::And(ts.push(t)).leaves() == Tree::And(ts).leaves() + t.leaves(),
        Tree::Or(ts).leaves() == Tree::And(ts).leaves(),
{
    assert(ts.push(t).drop_last() =~= ts);
    assert(all_leaves(ts.push(t)) == all_leaves(ts) + t.leaves());
    assert(all_leaves(Seq::<Tree>::empty()) == 0);
}

/// The leaves of the left tree of a difference come before those of the right, and those of
/// a list in the order of the list.
pub proof fn law_visit_order(ts: Seq<Tree>, a: Tree, b: Tree, k: int)
    requires
        0 <= k < ts.len(),
    ensures
        ({
            let d = Tree::Diff(Box::new(a), Box::new(b)).indices();
            &&& d.take(a.leaves() as int) == a.indices()
            &&& d.skip(a.leaves() as int) == b.indices()
        }),
        Tree::And(ts).indices() == Tree::Or(ts).indices(),
        Tree::And(ts).indices().subrange(
            all_leaves(ts.take(k)) as int,
            (all_leaves(ts.take(k)) + ts[k].leaves()) as int,
        ) == ts[k].indices(),
{
    law_within(a, 0);
    law_within(b, 0);
    let d = Tree::Diff(Box::new(a), Box::new(b)).indices();
    assert(d.take(a.leaves() as int) =~= a.indices());
    assert(d.skip(a.leaves() as int) =~= b.indices());
    lemma_visit(ts, k, ts.len() as int);
    assert(ts.take(ts.len() as int) =~= ts);
}

proof fn lemma_visit(ts: Seq<Tree>, k: int, m: int)
    requires
        0 <= k < m <= ts.len(),
    ensures
        all_leaves(ts.take(k)) + ts[k].leaves() <= all_indices(ts.take(m)).len(),
        all_indices(ts.take(m)).subrange(
            all_leaves(ts.take(k)) as int,
            (all_leaves(ts.take(k)) + ts[k].leaves()) as int,
        ) == ts[k].indices(),
    decreases m,
{
    let (p, q) = (ts.take(m), ts.take(m - 1));
    let (from, to) = (all_leaves(ts.take(k)) as int, (all_leaves(ts.take(k)) + ts[k].leaves()) as int);
    assert(p.drop_last() =~= q);
    assert(p.last() == ts[m - 1]);
    lemma_all_within(q, 0);
    law_within(ts[m - 1], 0);
    assert(all_indices(p) == all_indices(q) + ts[m - 1].indices());
    if k < m - 1 {
        lemma_visit(ts, k, m - 1);
        assert(all_indices(p).subrange(from, to) =~= all_indices(q).subrange(from, to));
    } else {
        assert(all_indices(p).subrange(from, to) =~= ts[k].indices());
    }
}

/// The measures of a list, tree by tree.
pub proof fn lemma_list(ts: Seq<Tree>, pool: Seq<Set<u32>>)
    ensures
        values(ts, pool).len() == ts.len(),
        forall|i: int| 0 <= i < ts.len() ==> #[trigger] values(ts, pool)[i] == ts[i].value(pool),
        forall|i: int| 0 <= i < ts.len() ==> (#[trigger] ts[i]).depth() <= deepest(ts),
        ts.len() > 0 ==> exists|i: int| 0 <= i < ts.len() && (#[trigger] ts[i]).depth() == deepest(ts),
        ts.len() == 0 ==> deepest(ts) == 0,
    decreases ts.len(),
{
    if ts.len() > 0 {
        let d = ts.drop_last();
        let n = ts.len() - 1;
        lemma_list(d, pool);
        assert forall|i: int| 0 <= i < ts.len() implies #[trigger] values(ts, pool)[i] == ts[i].value(
            pool,
        ) by {
            if i < n {
                assert(d[i] == ts[i]);
            }
        }
        assert forall|i: int| 0 <= i < ts.len() implies (#[trigger] ts[i]).depth() <= deepest(ts) by {
            if i < n {
                assert(d[i] == ts[i]);
            }
        }
        if deepest(d) >= ts.last().depth() && d.len() > 0 {
            let i = choose|i: int| 0 <= i < d.len() && (#[trigger] d[i]).depth() == deepest(d);
            assert(ts[i] == d[i]);
        } else {
            assert(ts.last().depth() >= 1);
            assert(ts[n].depth() == deepest(ts));
        }
    }
}

/// A leaf stands for its pool entry.
pub proof fn law_value_leaf(i: usize, pool: Seq<Set<u32>>)
    ensures
        Spec::Leaf(i).tree().value(pool) == pool[i as int],
{
}

/// A value is in a difference exactly where it is in the first tree and not in the second.
/// So a tree without itself is empty, and one without an empty tree is the tree.
pub proof fn law_value_diff(a: Spec, b: Spec, pool: Seq<Set<u32>>)
    ensures
        forall|v: u32| #[trigger]
            Spec::Diff(Box::new(a), Box::new(b)).tree().value(pool).contains(v) <==> a.tree().value(
                pool,
            ).contains(v) && !b.tree().value(pool).contains(v),
        Spec::Diff(Box::new(a), Box::new(a)).tree().value(pool) == Set::<u32>::empty(),
        b.tree().value(pool) == Set::<u32>::empty() ==> Spec::Diff(Box::new(a), Box::new(b)).tree().value(
            pool,
        ) == a.tree().value(pool),
{
    let (x, y) = (a.tree().value(pool), b.tree().value(pool));
    assert(Spec::Diff(Box::new(a), Box::new(b)).tree().value(pool) == x.difference(y));
    assert(Spec::Diff(Box::new(a), Box::new(a)).tree().value(pool) == x.difference(x));
    assert(x.difference(x) =~= Set::<u32>::empty());
    assert(x.difference(Set::empty()) =~= x);
}

/// A value is in an intersection exactly where it is in every tree of it, of which there has
/// to be one.
pub proof fn law_value_and(cs: Vec<Spec>, pool: Seq<Set<u32>>, v: u32)
    ensures
        Spec::And(cs).tree().value(pool).contains(v) <==> cs@.len() > 0 && forall|i: int|
            0 <= i < cs@.len() ==> (#[trigger] cs@[i]).tree().value(pool).contains(v),
{
    let ts = trees(cs@);
    let sets = values(ts, pool);
    lemma_trees(cs@);
    lemma_list(ts, pool);
    assert(forall|i: int| 0 <= i < ts.len() ==> #[trigger] sets[i] == cs@[i].tree().value(pool));
    if Spec::And(cs).tree().value(pool).contains(v) {
        assert forall|i: int| 0 <= i < cs@.len() implies (#[trigger] cs@[i]).tree().value(pool).contains(
            v,
        ) by {
            assert(sets[i].contains(v));
        }
    }
}

/// A value is in a union exactly where it is in one of its trees.
pub proof fn law_value_or(cs: Vec<Spec>, pool: Seq<Set<u32>>, v: u32)
    ensures
        Spec::Or(cs).tree().value(pool).contains(v) <==> exists|i: int|
            0 <= i < cs@.len() && (#[trigger] cs@[i]).tree().value(pool).contains(v),
{
    let ts = trees(cs@);
    let sets = values(ts, pool);
    lemma_trees(cs@);
    lemma_list(ts, pool);
    assert(forall|i: int| 0 <= i < ts.len() ==> #[trigger] sets[i] == cs@[i].tree().value(pool));
    if exists|i: int| 0 <= i < cs@.len() && (#[trigger] cs@[i]).tree().value(pool).contains(v) {
        let i = choose|i: int| 0 <= i < cs@.len() && (#[trigger] cs@[i]).tree().value(pool).contains(v);
        assert(sets[i].contains(v));
    }
}

/// Two pools hold the same under the indices `is`.
pub open spec fn agree_on(is: Seq<usize>, p: Seq<Set<u32>>, q: Seq<Set<u32>>) -> bool {
    forall|k: int| 0 <= k < is.len() ==> p[#[trigger] is[k] as int] == q[is[k] as int]
}

/// Only the entries that a tree names matter to it.
pub proof fn law_value_named(t: Tree, p: Seq<Set<u32>>, q: Seq<Set<u32>>)
    requires
        agree_on(t.indices(), p, q),
    ensures
        t.value(p) == t.value(q),
    decreases t,
{
    match t {
        Tree::Leaf(i) => {
            assert(t.indices()[0] == i);
        },
        Tree::And(ts) => {
            lemma_values_named(ts, p, q);
        },
        Tree::Or(ts) => {
            lemma_values_named(ts, p, q);
        },
        Tree::Diff(a, b) => {
            let (x, y) = (a.indices(), b.indices());
            assert forall|k: int| 0 <= k < x.len() implies p[#[trigger] x[k] as int] == q[x[k] as int] by {
                assert(t.indices()[k] == x[k]);
            }
            assert forall|k: int| 0 <= k < y.len() implies p[#[trigger] y[k] as int] == q[y[k] as int] by {
                assert(t.indices()[x.len() + k] == y[k]);
            }
            law_value_named(*a, p, q);
            law_value_named(*b, p, q);
        },
    }
}

proof fn lemma_values_named(ts: Seq<Tree>, p: Seq<Set<u32>>, q: Seq<Set<u32>>)
    requires
        agree_on(all_indices(ts), p, q),
    ensures
        values(ts, p) == values(ts, q),
    decreases ts,
{
    if ts.len() > 0 {
        let (d, t) = (ts.drop_last(), ts.last());
        let (x, y, z) = (all_indices(d), t.indices(), all_indices(ts));
        assert forall|k: int| 0 <= k < x.len() implies p[#[trigger] x[k] as int] == q[x[k] as int] by {
            assert(z[k] == x[k]);
        }
        assert forall|k: int| 0 <= k < y.len() implies p[#[trigger] y[k] as int] == q[y[k] as int] by {
            assert(z[x.len() + k] == y[k]);
        }
        lemma_values_named(d, p, q);
        law_value_named(t, p, q);
    }
}

/// A leaf is one level. Any other tree is one level more than the deepest of its children,
/// and one level if it has none.
pub proof fn law_levels(cs: Vec<Spec>, a: Spec, b: Spec, i: usize)
    ensures
        Spec::Leaf(i).tree().depth() == 1,
        Spec::And(cs).tree().depth() == Spec::Or(cs).tree().depth(),
        forall|k: int|
            0 <= k < cs@.len() ==> (#[trigger] cs@[k]).tree().depth() < Spec::And(cs).tree().depth(),
        cs@.len() > 0 ==> exists|k: int|
            0 <= k < cs@.len() && (#[trigger] cs@[k]).tree().depth() + 1 == Spec::And(
                cs,
            ).tree().depth(),
        cs@.len() == 0 ==> Spec::And(cs).tree().depth() == 1,
        ({
            let (d, x, y) = (
                Spec::Diff(Box::new(a), Box::new(b)).tree().depth(),
                a.tree().depth(),
                b.tree().depth(),
            );
            d > x && d > y && (d == x + 1 || d == y + 1)
        }),
{
    let ts = trees(cs@);
    lemma_trees(cs@);
    lemma_list(ts, Seq::empty());
    assert forall|k: int| 0 <= k < cs@.len() implies (#[trigger] cs@[k]).tree().depth() < Spec::And(
        cs,
    ).tree().depth() by {
        assert(ts[k] == cs@[k].tree());
    }
    if cs@.len() > 0 {
        let k = choose|k: int| 0 <= k < ts.len() && (#[trigger] ts[k]).depth() == deepest(ts);
        assert(ts[k] == cs@[k].tree());
        assert(cs@[k].tree().depth() + 1 == Spec::And(cs).tree().depth());
    }
}

/// Number of leaves.
pub fn count_leaves(spec: &Spec) -> (r: usize)
    requires
        spec.tree().leaves() <= usize::MAX,
    ensures
        r == spec.tree().leaves(),
    decreases spec,
{
    match spec {
        Spec::Leaf(_) => 1,
        Spec::And(cs) => count_all(cs.as_slice()),
        Spec::Or(cs) => count_all(cs.as_slice()),
        Spec::Diff(a, b) => count_leaves(a) + count_leaves(b),
    }
}

fn count_all(cs: &[Spec]) -> (r: usize)
    requires
        all_leaves(trees(cs@)) <= usize::MAX,
    ensures
        r == all_leaves(trees(cs@)),
    decreases cs@,
{
    let ghost ts = trees(cs@);
    let mut n: usize = 0;
    let mut k: usize = 0;
    proof {
        lemma_trees(cs@);
    }
    while k < cs.len()
        invariant
            k <= cs.len(),
            ts == trees(cs@),
            ts.len() == cs@.len(),
            forall|i: int| 0 <= i < ts.len() ==> #[trigger] ts[i] == cs@[i].tree(),
            all_leaves(ts) <= usize::MAX,
            n == all_leaves(ts.take(k as int)),
        decreases cs.len() - k,
    {
        proof {
            lemma_take(ts, 0, k as int);
            assert(ts[k as int] == cs@[k as int].tree());
        }
        n = n + count_leaves(&cs[k]);
        k = k + 1;
    }
    assert(ts.take(k as int) =~= ts);
    n
}

/// Number of levels. A leaf counts 1.
pub fn depth_of(spec: &Spec) -> (r: usize)
    requires
        spec.tree().depth() <= usize::MAX,
    ensures
        r == spec.tree().depth(),
    decreases spec,
{
    match spec {
        Spec::Leaf(_) => 1,
        Spec::And(cs) => 1 + deepest_of(cs.as_slice()),
        Spec::Or(cs) => 1 + deepest_of(cs.as_slice()),
        Spec::Diff(a, b) => {
            let (x, y): (usize, usize) = (depth_of(a), depth_of(b));
            1 + if x >= y {
                x
            } else {
                y
            }
        },
    }
}

fn deepest_of(cs: &[Spec]) -> (r: usize)
    requires
        deepest(trees(cs@)) <= usize::MAX,
    ensures
        r == deepest(trees(cs@)),
    decreases cs@,
{
    let ghost ts = trees(cs@);
    let mut n: usize = 0;
    let mut k: usize = 0;
    proof {
        lemma_trees(cs@);
    }
    while k < cs.len()
        invariant
            k <= cs.len(),
            ts == trees(cs@),
            ts.len() == cs@.len(),
            forall|i: int| 0 <= i < ts.len() ==> #[trigger] ts[i] == cs@[i].tree(),
            deepest(ts) <= usize::MAX,
            n == deepest(ts.take(k as int)),
        decreases cs.len() - k,
    {
        proof {
            lemma_take(ts, 0, k as int);
            assert(ts[k as int] == cs@[k as int].tree());
        }
        let d: usize = depth_of(&cs[k]);
        if d > n {
            n = d;
        }
        k = k + 1;
    }
    assert(ts.take(k as int) =~= ts);
    n
}

/// Append every leaf index of the tree, in visit order.
pub fn collect_leaves(s: &Spec, out: &mut Vec<usize>)
    ensures
        final(out)@ == old(out)@ + s.tree().indices(),
    decreases s,
{
    match s {
        Spec::Leaf(i) => {
            out.push(*i);
            assert(out@ =~= old(out)@ + seq![*i]);
        },
        Spec::And(cs) => collect_all(cs.as_slice(), out),
        Spec::Or(cs) => collect_all(cs.as_slice(), out),
        Spec::Diff(a, b) => {
            collect_leaves(a, out);
            collect_leaves(b, out);
            assert(out@ =~= old(out)@ + (a.tree().indices() + b.tree().indices()));
        },
    }
}

fn collect_all(cs: &[Spec], out: &mut Vec<usize>)
    ensures
        final(out)@ == old(out)@ + all_indices(trees(cs@)),
    decreases cs@,
{
    let ghost ts = trees(cs@);
    let mut k: usize = 0;
    proof {
        lemma_trees(cs@);
        assert(old(out)@ + all_indices(ts.take(0)) =~= old(out)@);
    }
    while k < cs.len()
        invariant
            k <= cs.len(),
            ts == trees(cs@),
            ts.len() == cs@.len(),
            forall|i: int| 0 <= i < ts.len() ==> #[trigger] ts[i] == cs@[i].tree(),
            out@ == old(out)@ + all_indices(ts.take(k as int)),
        decreases cs.len() - k,
    {
        proof {
            lemma_take(ts, 0, k as int);
            assert(ts[k as int] == cs@[k as int].tree());
        }
        collect_leaves(&cs[k], out);
        proof {
            assert(out@ =~= old(out)@ + all_indices(ts.take(k + 1)));
        }
        k = k + 1;
    }
    assert(ts.take(k as int) =~= ts);
}

// --- both engines -------------------------------------------------------------------------

/// The expression of a tree over the frozen bitmaps of a pool.
pub fn build_fb<'a>(spec: &Spec, p: &'a Workload) -> (r: BitmapExpr<'a>)
    requires
        spec.tree().within(p.sets().len()),
    ensures
        r.set() == spec.tree().value(p.sets()),
    decreases spec,
{
    match spec {
        Spec::Leaf(i) => BitmapExpr::leaf(p.fv(*i)),
        Spec::And(cs) => BitmapExpr::and(build_all(cs.as_slice(), p)),
        Spec::Or(cs) => BitmapExpr::or(build_all(cs.as_slice(), p)),
        Spec::Diff(a, b) => BitmapExpr::difference(build_fb(a, p), build_fb(b, p)),
    }
}

fn build_all<'a>(cs: &[Spec], p: &'a Workload) -> (r: Vec<BitmapExpr<'a>>)
    requires
        all_within(trees(cs@), p.sets().len()),
    ensures
        expr_sets(r@) == values(trees(cs@), p.sets()),
    decreases cs@,
{
    let ghost ts = trees(cs@);
    let mut out: Vec<BitmapExpr<'a>> = Vec::new();
    let mut k: usize = 0;
    proof {
        lemma_trees(cs@);
        assert(expr_sets(out@) =~= values(ts.take(0), p.sets()));
    }
    while k < cs.len()
        invariant
            k <= cs.len(),
            ts == trees(cs@),
            ts.len() == cs@.len(),
            forall|i: int| 0 <= i < ts.len() ==> #[trigger] ts[i] == cs@[i].tree(),
            all_within(ts, p.sets().len()),
            expr_sets(out@) == values(ts.take(k as int), p.sets()),
        decreases cs.len() - k,
    {
        proof {
            lemma_take(ts, p.sets().len(), k as int);
            assert(ts[k as int] == cs@[k as int].tree());
        }
        let ghost before = expr_sets(out@);
        let e: BitmapExpr<'a> = build_fb(&cs[k], p);
        out.push(e);
        proof {
            assert(expr_sets(out@) =~= before.push(ts[k as int].value(p.sets())));
        }
        k = k + 1;
    }
    assert(ts.take(k as int) =~= ts);
    out
}

/// The value of a tree over the roaring bitmaps of a pool. N-ary groups go through the
/// N-way operations, a difference through the binary one.
pub fn eval_rb(spec: &Spec, p: &Workload) -> (r: RoaringBitmap)
    requires
        p.wf(),
        spec.tree().within(p.sets().len()),
    ensures
        roaring_set(r) == spec.tree().value(p.sets()),
    decreases spec,
{
    match spec {
        Spec::Leaf(i) => {
            assert(roaring_sets(p.rbs@).len() == p.sets().len());
            assert(roaring_sets(p.rbs@)[*i as int] == p.sets()[*i as int]);
            roaring_clone(&p.rbs[*i])
        },
        Spec::And(cs) => rb_and(eval_all(cs.as_slice(), p).as_slice()),
        Spec::Or(cs) => rb_or(eval_all(cs.as_slice(), p).as_slice()),
        Spec::Diff(a, b) => roaring_sub(&eval_rb(a, p), &eval_rb(b, p)),
    }
}

fn eval_all(cs: &[Spec], p: &Workload) -> (r: Vec<RoaringBitmap>)
    requires
        p.wf(),
        all_within(trees(cs@), p.sets().len()),
    ensures
        roaring_sets(r@) == values(trees(cs@), p.sets()),
    decreases cs@,
{
    let ghost ts = trees(cs@);
    let mut out: Vec<RoaringBitmap> = Vec::new();
    let mut k: usize = 0;
    proof {
        lemma_trees(cs@);
        assert(roaring_sets(out@) =~= values(ts.take(0), p.sets()));
    }
    while k < cs.len()
        invariant
            p.wf(),
            k <= cs.len(),
            ts == trees(cs@),
            ts.len() == cs@.len(),
            forall|i: int| 0 <= i < ts.len() ==> #[trigger] ts[i] == cs@[i].tree(),
            all_within(ts, p.sets().len()),
            roaring_sets(out@) == values(ts.take(k as int), p.sets()),
        decreases cs.len() - k,
    {
        proof {
            lemma_take(ts, p.sets().len(), k as int);
            assert(ts[k as int] == cs@[k as int].tree());
        }
        let ghost before = roaring_sets(out@);
        let e: RoaringBitmap = eval_rb(&cs[k], p);
        out.push(e);
        proof {
            assert(roaring_sets(out@) =~= before.push(ts[k as int].value(p.sets())));
        }
        k = k + 1;
    }
    assert(ts.take(k as int) =~= ts);
    out
}

} // verus!
