use frostbit::{
    difference_fast, intersect_fast, union_fast, BitmapExpr, FrozenBitmap, FrozenBitmapBuilder,
};
use std::sync::Arc;

fn build(vals: &[u32]) -> FrozenBitmap {
    let mut b = FrozenBitmapBuilder::new();
    b.extend_sorted(vals);
    b.finish()
}

fn stepped(step: u32, n: u32) -> FrozenBitmap {
    build(&(0..n).map(|i| i * step).collect::<Vec<_>>())
}

#[test]
fn filter_tree() {
    let base = stepped(2, 60_000);
    let d0 = stepped(3, 30_000);
    let d1 = stepped(5, 20_000);
    let all = stepped(1, 100_000);
    let lang = stepped(7, 14_000);
    let e = BitmapExpr::and(vec![
        BitmapExpr::leaf(base.view()),
        BitmapExpr::or(vec![BitmapExpr::leaf(d0.view()), BitmapExpr::leaf(d1.view())]),
        BitmapExpr::difference(BitmapExpr::leaf(all.view()), BitmapExpr::leaf(lang.view())),
    ]);
    let want: Vec<u32> = (0..100_000u32)
        .filter(|x| x % 2 == 0 && *x < 120_000)
        .filter(|x| (x % 3 == 0 && *x < 90_000) || x % 5 == 0)
        .filter(|x| !(x % 7 == 0 && *x < 98_000))
        .collect();
    // The expression is reusable.
    assert_eq!(e.materialize().values(), want);
    assert_eq!(e.materialize().values(), want);
    assert_eq!(e.clone().materialize().values(), want);
}

#[test]
fn degenerate_nodes() {
    let a = build(&[4, 9, 100_000]);
    assert!(BitmapExpr::and(vec![]).materialize().is_empty());
    assert!(BitmapExpr::or(vec![]).materialize().is_empty());
    let one = BitmapExpr::and(vec![BitmapExpr::leaf(a.view())]).materialize();
    assert_eq!(one.values(), vec![4, 9, 100_000]);
    let one = BitmapExpr::or(vec![BitmapExpr::leaf(a.view())]).materialize();
    assert_eq!(one.values(), vec![4, 9, 100_000]);
    // An empty intersection within another stays empty.
    let e = BitmapExpr::and(vec![BitmapExpr::and(vec![]), BitmapExpr::leaf(a.view())]);
    assert!(e.materialize().is_empty());
    let e = BitmapExpr::or(vec![BitmapExpr::or(vec![]), BitmapExpr::leaf(a.view())]);
    assert_eq!(e.materialize().values(), vec![4, 9, 100_000]);
    assert_eq!(BitmapExpr::leaf(a.view()).materialize().as_bytes(), a.as_bytes());
}

#[test]
fn leaves_by_value() {
    let a = build(&[1, 2, 3]);
    let b = build(&[2, 3, 4]);
    let shared = Arc::new(build(&[3, 4, 5]));
    let e = BitmapExpr::and(vec![
        BitmapExpr::from(a.view()),
        BitmapExpr::from(b),
        BitmapExpr::from(shared.clone()),
    ]);
    assert_eq!(e.materialize().values(), vec![3]);
    let e = BitmapExpr::difference(BitmapExpr::owned(shared.clone()), BitmapExpr::leaf(a.view()));
    assert_eq!(e.materialize().values(), vec![4, 5]);
    assert_eq!(BitmapExpr::owned(shared).materialize().values(), vec![3, 4, 5]);
}

#[test]
fn nested_chains_flatten() {
    let f: Vec<FrozenBitmap> = (1..6).map(|s| stepped(s, 90_000 / s)).collect();
    let l = |i: usize| BitmapExpr::leaf(f[i].view());
    let nested = BitmapExpr::and(vec![
        BitmapExpr::and(vec![l(0), l(1)]),
        l(2),
        BitmapExpr::and(vec![l(3), l(4)]),
    ]);
    let flat = BitmapExpr::and((0..5).map(l).collect());
    let views: Vec<_> = f.iter().map(|b| b.view()).collect();
    assert!(nested.materialize() == flat.materialize());
    assert!(nested.materialize() == intersect_fast(&views));
    let nested = BitmapExpr::or(vec![l(4), BitmapExpr::or(vec![l(3), BitmapExpr::or(vec![l(2)])])]);
    assert!(nested.materialize() == union_fast(&[views[2], views[3], views[4]]));
}

#[test]
fn differences_do_not_flatten() {
    let a = build(&[1, 2, 3, 4]);
    let b = build(&[2, 3]);
    let c = build(&[3]);
    let left = BitmapExpr::difference(
        BitmapExpr::difference(BitmapExpr::leaf(a.view()), BitmapExpr::leaf(b.view())),
        BitmapExpr::leaf(c.view()),
    );
    let right = BitmapExpr::difference(
        BitmapExpr::leaf(a.view()),
        BitmapExpr::difference(BitmapExpr::leaf(b.view()), BitmapExpr::leaf(c.view())),
    );
    assert_eq!(left.materialize().values(), vec![1, 4]);
    assert_eq!(right.materialize().values(), vec![1, 3, 4]);
    assert!(left.materialize() == difference_fast(&[a.view(), b.view(), c.view()]));
}

#[test]
fn empty_operands_end_an_intersection() {
    let a = stepped(2, 1000);
    let wide = stepped(1, 300_000);
    let none = || BitmapExpr::difference(BitmapExpr::leaf(a.view()), BitmapExpr::leaf(a.view()));
    let big = || BitmapExpr::or(vec![BitmapExpr::leaf(wide.view()), BitmapExpr::leaf(a.view())]);
    assert!(BitmapExpr::and(vec![none(), big()]).materialize().is_empty());
    assert!(BitmapExpr::and(vec![big(), none(), big()]).materialize().is_empty());
    assert!(BitmapExpr::difference(none(), big()).materialize().is_empty());
    let kept = BitmapExpr::or(vec![BitmapExpr::and(vec![none(), big()]), big()]).materialize();
    assert_eq!(kept.len(), 300_000);
}

#[test]
fn narrow_operands_prune_blocks() {
    // One operand of four blocks under wide ones.
    let narrow = build(&(0..4u32).flat_map(|k| (0..50).map(move |i| (k << 16) + i * 9)).collect::<Vec<_>>());
    let wide: Vec<FrozenBitmap> = (0..4u32)
        .map(|w| build(&(0..64u32).flat_map(|k| (0..40).map(move |i| (k << 16) + i * 3 * (w + 1))).collect::<Vec<_>>()))
        .collect();
    let l = |i: usize| BitmapExpr::leaf(wide[i].view());
    let e = BitmapExpr::and(vec![
        BitmapExpr::leaf(narrow.view()),
        BitmapExpr::or(vec![l(0), l(1)]),
        BitmapExpr::or(vec![l(2), l(3)]),
    ]);
    let ab = union_fast(&[wide[0].view(), wide[1].view()]);
    let cd = union_fast(&[wide[2].view(), wide[3].view()]);
    let want = intersect_fast(&[narrow.view(), ab.view(), cd.view()]);
    assert!(e.materialize() == want);
    assert!(!want.is_empty());
}

#[test]
fn equal_sets_materialize_to_equal_bytes() {
    let (a, b, c) = (stepped(2, 40_000), stepped(3, 30_000), stepped(1, 500));
    let leaf = |x: &FrozenBitmap| BitmapExpr::from(x.clone());
    // Both distribute.
    let left = BitmapExpr::and(vec![leaf(&a), BitmapExpr::or(vec![leaf(&b), leaf(&c)])]);
    let right = BitmapExpr::or(vec![
        BitmapExpr::and(vec![leaf(&a), leaf(&b)]),
        BitmapExpr::and(vec![leaf(&c), leaf(&a)]),
    ]);
    let (x, y) = (left.materialize(), right.materialize());
    assert!(x.len() > 10_000);
    assert!(x == y);
    // The bytes are those of a builder that got the values.
    let mut builder = FrozenBitmapBuilder::new();
    builder.extend_sorted(&x.values());
    assert!(x == builder.finish_standard());
    // The empty set, by a short circuit, by folding, and with no operand at all.
    let none = BitmapExpr::and(vec![BitmapExpr::difference(leaf(&c), leaf(&c)), leaf(&a)]);
    let folded = BitmapExpr::difference(leaf(&c), leaf(&c));
    let empty = FrozenBitmapBuilder::new().finish_standard();
    assert!(none.materialize() == empty);
    assert!(folded.materialize() == empty);
    assert!(BitmapExpr::or(vec![]).materialize() == empty);
}
