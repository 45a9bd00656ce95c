//! What a tree looks like: shape features and a compact dump, for reports on a corpus.
use vstd::prelude::*;
use vstd::string::*;

use crate::tree_laws::{all_made_of, made_of, Ops};
use crate::treegen::{all_indices, all_leaves, lemma_trees, trees, Spec, Tree};

verus! {

// --- shape features -----------------------------------------------------------------------

/// Shape features of one tree.
pub struct Feat {
    pub leaves: usize,
    pub depth: usize,
    pub ands: usize,
    pub ors: usize,
    pub diffs: usize,
    /// Leaves per pool class: small array, medium array, dense, runs.
    pub class: [usize; 4],
    pub max_width: usize,
}

/// What a tree adds to the features.
#[verifier::ext_equal]
pub struct Counts {
    pub leaves: nat,
    pub ands: nat,
    pub ors: nat,
    pub diffs: nat,
    pub class: Seq<nat>,
    pub width: nat,
}

/// Pool class of a leaf.
pub open spec fn class_of(i: usize) -> int {
    if i <= 5 {
        0
    } else if i <= 9 {
        1
    } else if i <= 13 {
        2
    } else {
        3
    }
}

/// Nothing to add.
pub open spec fn nothing() -> Counts {
    Counts { leaves: 0, ands: 0, ors: 0, diffs: 0, class: seq![0, 0, 0, 0], width: 0 }
}

/// The larger of two.
pub open spec fn larger(a: nat, b: nat) -> nat {
    if a >= b {
        a
    } else {
        b
    }
}

/// Both together: the numbers add up, the widths do not.
pub open spec fn both(a: Counts, b: Counts) -> Counts {
    Counts {
        leaves: a.leaves + b.leaves,
        ands: a.ands + b.ands,
        ors: a.ors + b.ors,
        diffs: a.diffs + b.diffs,
        class: Seq::new(4, |k: int| a.class[k] + b.class[k]),
        width: larger(a.width, b.width),
    }
}

/// What a tree adds.
pub open spec fn counts(t: Tree) -> Counts
    decreases t,
{
    match t {
        Tree::Leaf(i) => Counts {
            leaves: 1,
            class: nothing().class.update(class_of(i), 1),
            ..nothing()
        },
        Tree::And(ts) => both(Counts { ands: 1, width: ts.len(), ..nothing() }, all_counts(ts)),
        Tree::Or(ts) => both(Counts { ors: 1, width: ts.len(), ..nothing() }, all_counts(ts)),
        Tree::Diff(a, b) => both(
            both(Counts { diffs: 1, ..nothing() }, counts(*a)),
            counts(*b),
        ),
    }
}

/// What a list of trees adds.
pub open spec fn all_counts(ts: Seq<Tree>) -> Counts
    decreases ts,
{
    if ts.len() == 0 {
        nothing()
    } else {
        both(all_counts(ts.drop_last()), counts(ts.last()))
    }
}

impl Feat {
    /// The features but for the depth.
    pub open spec fn counted(self) -> Counts {
        Counts {
            leaves: self.leaves as nat,
            ands: self.ands as nat,
            ors: self.ors as nat,
            diffs: self.diffs as nat,
            class: Seq::new(4, |k: int| self.class@[k] as nat),
            width: self.max_width as nat,
        }
    }
}

/// No number is past what a machine word holds.
pub open spec fn fits(c: Counts) -> bool {
    &&& c.leaves <= usize::MAX
    &&& c.ands <= usize::MAX
    &&& c.ors <= usize::MAX
    &&& c.diffs <= usize::MAX
    &&& forall|k: int| 0 <= k < 4 ==> #[trigger] c.class[k] <= usize::MAX
}

/// No number of `a` is past that of `b`.
spec fn no_more(a: Counts, b: Counts) -> bool {
    &&& a.leaves <= b.leaves
    &&& a.ands <= b.ands
    &&& a.ors <= b.ors
    &&& a.diffs <= b.diffs
    &&& forall|k: int| 0 <= k < 4 ==> #[trigger] a.class[k] <= b.class[k]
}

proof fn lemma_fits(f: Counts, a: Counts, b: Counts)
    requires
        fits(both(f, b)),
        no_more(a, b),
    ensures
        fits(both(f, a)),
{
    let (x, y) = (both(f, a), both(f, b));
    assert forall|k: int| 0 <= k < 4 implies #[trigger] x.class[k] <= usize::MAX by {
        assert(y.class[k] <= usize::MAX);
        assert(a.class[k] <= b.class[k]);
    }
}

proof fn lemma_both(a: Counts, b: Counts, c: Counts)
    ensures
        both(both(a, b), c) == both(a, both(b, c)),
        no_more(a, both(a, b)),
        no_more(b, both(a, b)),
{
    assert(both(both(a, b), c) =~= both(a, both(b, c)));
}

/// The first children add no more than all of them.
proof fn lemma_first(ts: Seq<Tree>, k: int)
    requires
        0 <= k <= ts.len(),
    ensures
        no_more(all_counts(ts.take(k)), all_counts(ts)),
    decreases ts.len() - k,
{
    if k < ts.len() {
        lemma_first(ts, k + 1);
        assert(ts.take(k + 1).drop_last() =~= ts.take(k));
        lemma_both(all_counts(ts.take(k)), counts(ts[k]), nothing());
        let (a, b, c) = (all_counts(ts.take(k)), all_counts(ts.take(k + 1)), all_counts(ts));
        assert forall|j: int| 0 <= j < 4 implies #[trigger] a.class[j] <= c.class[j] by {
            assert(a.class[j] <= b.class[j]);
        }
    } else {
        assert(ts.take(k) =~= ts);
    }
}

/// Add the features of a tree. Its depth is left to the caller.
pub fn featurize(spec: &Spec, f: &mut Feat)
    requires
        fits(both(old(f).counted(), counts(spec.tree()))),
    ensures
        final(f).counted() == both(old(f).counted(), counts(spec.tree())),
        final(f).depth == old(f).depth,
    decreases spec,
{
    let ghost (f0, all) = (f.counted(), counts(spec.tree()));
    match spec {
        Spec::Leaf(i) => {
            let c: usize = if *i <= 5 {
                0
            } else if *i <= 9 {
                1
            } else if *i <= 13 {
                2
            } else {
                3
            };
            proof {
                assert(all.class[c as int] == 1);
                assert(both(f0, all).class[c as int] <= usize::MAX);
            }
            let old_class: usize = f.class[c];
            f.class[c] = old_class + 1;
            f.leaves = f.leaves + 1;
            assert(f.counted() =~= both(f0, all));
        },
        Spec::And(cs) => {
            let ghost rest = all_counts(trees(cs@));
            let ghost own = Counts { ands: 1, width: cs.len() as nat, ..nothing() };
            proof {
                lemma_trees(cs@);
                lemma_both(own, rest, nothing());
                lemma_both(f0, own, rest);
                lemma_fits(f0, own, all);
            }
            f.ands = f.ands + 1;
            if f.max_width < cs.len() {
                f.max_width = cs.len();
            }
            assert(f.counted() =~= both(f0, own));
            featurize_all(cs.as_slice(), f);
        },
        Spec::Or(cs) => {
            let ghost rest = all_counts(trees(cs@));
            let ghost own = Counts { ors: 1, width: cs.len() as nat, ..nothing() };
            proof {
                lemma_trees(cs@);
                lemma_both(own, rest, nothing());
                lemma_both(f0, own, rest);
                lemma_fits(f0, own, all);
            }
            f.ors = f.ors + 1;
            if f.max_width < cs.len() {
                f.max_width = cs.len();
            }
            assert(f.counted() =~= both(f0, own));
            featurize_all(cs.as_slice(), f);
        },
        Spec::Diff(a, b) => {
            let ghost own = Counts { diffs: 1, ..nothing() };
            let ghost (ca, cb) = (counts(a.tree()), counts(b.tree()));
            proof {
                lemma_both(own, ca, cb);
                lemma_both(both(own, ca), cb, nothing());
                lemma_both(f0, both(own, ca), cb);
                lemma_both(f0, own, ca);
                lemma_fits(f0, both(own, ca), all);
                lemma_fits(f0, own, both(own, ca));
            }
            f.diffs = f.diffs + 1;
            assert(f.counted() =~= both(f0, own));
            featurize(a, f);
            featurize(b, f);
        },
    }
}

fn featurize_all(cs: &[Spec], f: &mut Feat)
    requires
        fits(both(old(f).counted(), all_counts(trees(cs@)))),
    ensures
        final(f).counted() == both(old(f).counted(), all_counts(trees(cs@))),
        final(f).depth == old(f).depth,
    decreases cs@,
{
    let ghost (f0, ts) = (f.counted(), trees(cs@));
    let mut k: usize = 0;
    proof {
        lemma_trees(cs@);
        assert(f0 =~= both(f0, all_counts(ts.take(0))));
    }
    while k < cs.len()
        invariant
            k <= cs.len(),
            ts == trees(cs@),
            ts.len() == cs@.len(),
            forall|i: int| 0 <= i < ts.len() ==> #[trigger] ts[i] == cs@[i].tree(),
            fits(both(f0, all_counts(ts))),
            f.counted() == both(f0, all_counts(ts.take(k as int))),
            f.depth == old(f).depth,
        decreases cs.len() - k,
    {
        proof {
            assert(ts[k as int] == cs@[k as int].tree());
            assert(ts.take(k + 1).drop_last() =~= ts.take(k as int));
            lemma_first(ts, k + 1);
            lemma_fits(f0, all_counts(ts.take(k + 1)), all_counts(ts));
            lemma_both(f0, all_counts(ts.take(k as int)), counts(ts[k as int]));
        }
        featurize(&cs[k], f);
        k = k + 1;
    }
    assert(ts.take(k as int) =~= ts);
}

// --- what the features say ------------------------------------------------------------------

/// How many of `is` are of pool class `k`.
pub open spec fn of_class(is: Seq<usize>, k: int) -> nat
    decreases is.len(),
{
    if is.len() == 0 {
        0
    } else {
        of_class(is.drop_last(), k) + if class_of(is.last()) == k {
            1nat
        } else {
            0
        }
    }
}

proof fn lemma_of_class(a: Seq<usize>, b: Seq<usize>, k: int)
    ensures
        of_class(a + b, k) == of_class(a, k) + of_class(b, k),
    decreases b.len(),
{
    if b.len() == 0 {
        assert(a + b =~= a);
    } else {
        lemma_of_class(a, b.drop_last(), k);
        assert((a + b).drop_last() =~= a + b.drop_last());
    }
}

/// The classes of the pool: six small arrays, four medium ones, four dense entries, and the
/// rest.
pub proof fn law_class(i: usize)
    ensures
        class_of(i) == 0 <==> i < 6,
        class_of(i) == 1 <==> 6 <= i < 10,
        class_of(i) == 2 <==> 10 <= i < 14,
        class_of(i) == 3 <==> 14 <= i,
{
}

/// The features of a tree are those of its nodes: a leaf for each index, counted under its
/// class; no op that is not counted, and no node wider than the width.
pub proof fn law_features(t: Tree)
    ensures
        counts(t).leaves == t.leaves(),
        forall|k: int|
            0 <= k < 4 ==> #[trigger] counts(t).class[k] == of_class(t.indices(), k),
        made_of(
            t,
            (Ops { and: counts(t).ands > 0, or: counts(t).ors > 0, diff: counts(t).diffs > 0 }),
            0,
            counts(t).width as int,
        ),
    decreases t,
{
    match t {
        Tree::Leaf(i) => {
            let c = counts(t);
            assert(t.indices() =~= seq![i]);
            assert(seq![i].drop_last() =~= Seq::<usize>::empty());
            assert forall|k: int| 0 <= k < 4 implies #[trigger] c.class[k] == of_class(seq![i], k) by {
                reveal_with_fuel(of_class, 2);
                assert(seq![i].last() == i);
            }
        },
        Tree::And(ts) => {
            lemma_all_features(ts);
            lemma_freed(
                ts,
                ops_of(all_counts(ts)),
                ops_of(counts(t)),
                all_counts(ts).width as int,
                counts(t).width as int,
            );
        },
        Tree::Or(ts) => {
            lemma_all_features(ts);
            lemma_freed(
                ts,
                ops_of(all_counts(ts)),
                ops_of(counts(t)),
                all_counts(ts).width as int,
                counts(t).width as int,
            );
        },
        Tree::Diff(a, b) => {
            law_features(*a);
            law_features(*b);
            let (x, y, c) = (counts(*a), counts(*b), counts(t));
            lemma_free(*a, ops_of(x), ops_of(c), x.width as int, c.width as int);
            lemma_free(*b, ops_of(y), ops_of(c), y.width as int, c.width as int);
            assert forall|k: int| 0 <= k < 4 implies #[trigger] c.class[k] == of_class(t.indices(), k) by {
                lemma_of_class(a.indices(), b.indices(), k);
                assert(x.class[k] == of_class(a.indices(), k));
                assert(y.class[k] == of_class(b.indices(), k));
            }
        },
    }
}

/// The ops that were counted.
pub open spec fn ops_of(c: Counts) -> Ops {
    Ops { and: c.ands > 0, or: c.ors > 0, diff: c.diffs > 0 }
}

proof fn lemma_all_features(ts: Seq<Tree>)
    ensures
        all_counts(ts).leaves == all_leaves(ts),
        forall|k: int|
            0 <= k < 4 ==> #[trigger] all_counts(ts).class[k] == of_class(all_indices(ts), k),
        all_made_of(ts, ops_of(all_counts(ts)), 0, all_counts(ts).width as int),
    decreases ts,
{
    if ts.len() > 0 {
        let (d, t) = (ts.drop_last(), ts.last());
        lemma_all_features(d);
        law_features(t);
        let (x, y, c) = (all_counts(d), counts(t), all_counts(ts));
        lemma_freed(d, ops_of(x), ops_of(c), x.width as int, c.width as int);
        lemma_free(t, ops_of(y), ops_of(c), y.width as int, c.width as int);
        assert forall|k: int| 0 <= k < 4 implies #[trigger] c.class[k] == of_class(all_indices(ts), k) by {
            lemma_of_class(all_indices(d), t.indices(), k);
            assert(x.class[k] == of_class(all_indices(d), k));
            assert(y.class[k] == of_class(t.indices(), k));
        }
    }
}

proof fn lemma_free(t: Tree, a: Ops, b: Ops, lo: int, hi: int)
    requires
        made_of(t, a, 0, lo),
        lo <= hi,
        a.and ==> b.and,
        a.or ==> b.or,
        a.diff ==> b.diff,
    ensures
        made_of(t, b, 0, hi),
    decreases t,
{
    match t {
        Tree::Leaf(_) => {},
        Tree::And(ts) => {
            lemma_freed(ts, a, b, lo, hi);
        },
        Tree::Or(ts) => {
            lemma_freed(ts, a, b, lo, hi);
        },
        Tree::Diff(x, y) => {
            lemma_free(*x, a, b, lo, hi);
            lemma_free(*y, a, b, lo, hi);
        },
    }
}

proof fn lemma_freed(ts: Seq<Tree>, a: Ops, b: Ops, lo: int, hi: int)
    requires
        all_made_of(ts, a, 0, lo),
        lo <= hi,
        a.and ==> b.and,
        a.or ==> b.or,
        a.diff ==> b.diff,
    ensures
        all_made_of(ts, b, 0, hi),
    decreases ts,
{
    if ts.len() > 0 {
        lemma_freed(ts.drop_last(), a, b, lo, hi);
        lemma_free(ts.last(), a, b, lo, hi);
    }
}

/// An op that a tree does not hold is not counted.
pub proof fn law_uncounted(t: Tree, ops: Ops, lo: int, hi: int)
    requires
        made_of(t, ops, lo, hi),
    ensures
        !ops.and ==> counts(t).ands == 0,
        !ops.or ==> counts(t).ors == 0,
        !ops.diff ==> counts(t).diffs == 0,
        counts(t).width <= (if hi > 0 {
            hi
        } else {
            0
        }),
    decreases t,
{
    match t {
        Tree::Leaf(_) => {},
        Tree::And(ts) => {
            lemma_all_uncounted(ts, ops, lo, hi);
        },
        Tree::Or(ts) => {
            lemma_all_uncounted(ts, ops, lo, hi);
        },
        Tree::Diff(a, b) => {
            law_uncounted(*a, ops, lo, hi);
            law_uncounted(*b, ops, lo, hi);
        },
    }
}

proof fn lemma_all_uncounted(ts: Seq<Tree>, ops: Ops, lo: int, hi: int)
    requires
        all_made_of(ts, ops, lo, hi),
    ensures
        !ops.and ==> all_counts(ts).ands == 0,
        !ops.or ==> all_counts(ts).ors == 0,
        !ops.diff ==> all_counts(ts).diffs == 0,
        all_counts(ts).width <= (if hi > 0 {
            hi
        } else {
            0
        }),
    decreases ts,
{
    if ts.len() > 0 {
        lemma_all_uncounted(ts.drop_last(), ops, lo, hi);
        law_uncounted(ts.last(), ops, lo, hi);
    }
}

// --- dump ---------------------------------------------------------------------------------

/// The character of a decimal digit.
pub open spec fn digit(d: nat) -> char {
    (('0' as nat) + d) as char
}

/// A number in decimal.
pub open spec fn decimal(n: nat) -> Seq<char>
    decreases n,
{
    if n < 10 {
        seq![digit(n)]
    } else {
        decimal(n / 10).push(digit(n % 10))
    }
}

/// Compact structural dump: `&` for an intersection, `|` for a union, `\` for a
/// difference, leaves by pool index.
pub open spec fn text(t: Tree) -> Seq<char>
    decreases t,
{
    match t {
        Tree::Leaf(i) => decimal(i as nat),
        Tree::And(ts) => seq!['&', '('] + texts(ts) + seq![')'],
        Tree::Or(ts) => seq!['|', '('] + texts(ts) + seq![')'],
        Tree::Diff(a, b) => seq!['\\', '('] + text(*a) + seq![','] + text(*b) + seq![')'],
    }
}

/// The dumps of a list, with commas between them.
pub open spec fn texts(ts: Seq<Tree>) -> Seq<char>
    decreases ts,
{
    if ts.len() == 0 {
        Seq::empty()
    } else if ts.len() == 1 {
        text(ts[0])
    } else {
        texts(ts.drop_last()) + seq![','] + text(ts.last())
    }
}

/// Append a digit.
fn push_digit(d: usize, out: &mut String)
    requires
        d < 10,
    ensures
        final(out)@ == old(out)@.push(digit(d as nat)),
{
    proof {
        reveal_strlit("0");
        reveal_strlit("1");
        reveal_strlit("2");
        reveal_strlit("3");
        reveal_strlit("4");
        reveal_strlit("5");
        reveal_strlit("6");
        reveal_strlit("7");
        reveal_strlit("8");
        reveal_strlit("9");
    }
    match d {
        0 => out.append("0"),
        1 => out.append("1"),
        2 => out.append("2"),
        3 => out.append("3"),
        4 => out.append("4"),
        5 => out.append("5"),
        6 => out.append("6"),
        7 => out.append("7"),
        8 => out.append("8"),
        _ => out.append("9"),
    }
    assert(out@ =~= old(out)@.push(digit(d as nat)));
}

/// Append a number.
fn push_decimal(n: usize, out: &mut String)
    ensures
        final(out)@ == old(out)@ + decimal(n as nat),
    decreases n,
{
    if n >= 10 {
        push_decimal(n / 10, out);
    }
    push_digit(n % 10, out);
    assert(out@ =~= old(out)@ + decimal(n as nat));
}

/// Append the dump of a tree.
pub fn dump(spec: &Spec, out: &mut String)
    ensures
        final(out)@ == old(out)@ + text(spec.tree()),
    decreases spec,
{
    proof {
        reveal_strlit("&(");
        reveal_strlit("|(");
        reveal_strlit("\\(");
        reveal_strlit(",");
        reveal_strlit(")");
    }
    match spec {
        Spec::Leaf(i) => push_decimal(*i, out),
        Spec::And(cs) => {
            out.append("&(");
            dump_all(cs.as_slice(), out);
            out.append(")");
            assert(out@ =~= old(out)@ + text(spec.tree()));
        },
        Spec::Or(cs) => {
            out.append("|(");
            dump_all(cs.as_slice(), out);
            out.append(")");
            assert(out@ =~= old(out)@ + text(spec.tree()));
        },
        Spec::Diff(a, b) => {
            out.append("\\(");
            dump(a, out);
            out.append(",");
            dump(b, out);
            out.append(")");
            assert(out@ =~= old(out)@ + text(spec.tree()));
        },
    }
}

fn dump_all(cs: &[Spec], out: &mut String)
    ensures
        final(out)@ == old(out)@ + texts(trees(cs@)),
    decreases cs@,
{
    let ghost ts = trees(cs@);
    let mut k: usize = 0;
    proof {
        lemma_trees(cs@);
        reveal_strlit(",");
        assert(old(out)@ + texts(ts.take(0)) =~= old(out)@);
    }
    while k < cs.len()
        invariant
            k <= cs.len(),
            ts == trees(cs@),
            ts.len() == cs@.len(),
            forall|i: int| 0 <= i < ts.len() ==> #[trigger] ts[i] == cs@[i].tree(),
            out@ == old(out)@ + texts(ts.take(k as int)),
            ","@ == seq![','],
        decreases cs.len() - k,
    {
        proof {
            assert(ts[k as int] == cs@[k as int].tree());
            assert(ts.take(k + 1).drop_last() =~= ts.take(k as int));
        }
        if k > 0 {
            out.append(",");
        }
        dump(&cs[k], out);
        proof {
            assert(out@ =~= old(out)@ + texts(ts.take(k + 1)));
        }
        k = k + 1;
    }
    assert(ts.take(k as int) =~= ts);
}

/// The number that decimal digits stand for.
pub open spec fn number(s: Seq<char>) -> int
    decreases s.len(),
{
    if s.len() == 0 {
        0
    } else {
        10 * number(s.drop_last()) + (s.last() as int - '0' as int)
    }
}

/// A number in decimal reads back as that number, and has no leading zero.
pub proof fn law_decimal(n: nat)
    ensures
        number(decimal(n)) == n,
        decimal(n).len() > 0,
        forall|i: int| 0 <= i < decimal(n).len() ==> '0' <= #[trigger] decimal(n)[i] <= '9',
        n > 0 ==> decimal(n)[0] != '0',
    decreases n,
{
    reveal_with_fuel(number, 2);
    if n < 10 {
        assert(decimal(n).drop_last() =~= Seq::<char>::empty());
    } else {
        law_decimal(n / 10);
        assert(decimal(n).drop_last() =~= decimal(n / 10));
    }
}

/// A dump opens with the mark of its op and a bracket, and closes with one. That of a leaf is
/// its index.
pub proof fn law_dump(t: Tree)
    ensures
        match t {
            Tree::Leaf(i) => number(text(t)) == i,
            Tree::And(_) => text(t)[0] == '&',
            Tree::Or(_) => text(t)[0] == '|',
            Tree::Diff(_, _) => text(t)[0] == '\\',
        },
        !(t is Leaf) ==> text(t).len() >= 3 && text(t)[1] == '(' && text(t).last() == ')',
{
    match t {
        Tree::Leaf(i) => {
            law_decimal(i as nat);
        },
        Tree::And(ts) => {
            assert(text(t) == seq!['&', '('] + texts(ts) + seq![')']);
        },
        Tree::Or(ts) => {
            assert(text(t) == seq!['|', '('] + texts(ts) + seq![')']);
        },
        Tree::Diff(a, b) => {
            assert(text(t) == seq!['\\', '('] + text(*a) + seq![','] + text(*b) + seq![')']);
        },
    }
}

} // verus!
