use frostbit::audit::{dump, featurize, Feat};
use frostbit::corpus::{
    corpus_specs, gen, gen_family, gen_pillar, gen_profiled, mixed_inputs, named, Profile,
};
use frostbit::engines::{fb_vec, rb_vec, Workload};
use frostbit::treegen::{
    and, build_fb, collect_leaves, count_leaves, depth_of, diff, eval_rb, leaf, or, Spec,
};
use frostbit::workload::splitmix64;

fn text(s: &Spec) -> String {
    let mut out = String::new();
    dump(s, &mut out);
    out
}

fn sample() -> Spec {
    and(vec![
        leaf(12),
        or(vec![leaf(0), leaf(7), leaf(105)]),
        diff(leaf(13), leaf(10)),
    ])
}

#[test]
fn measures_of_a_tree() {
    let t = sample();
    assert_eq!(count_leaves(&t), 6);
    assert_eq!(depth_of(&t), 3);
    let mut out = vec![99];
    collect_leaves(&t, &mut out);
    assert_eq!(out, vec![99, 12, 0, 7, 105, 13, 10]);
    assert_eq!((count_leaves(&and(vec![])), depth_of(&and(vec![]))), (0, 1));
    assert_eq!(depth_of(&leaf(3)), 1);
}

#[test]
fn dumps_and_features() {
    assert_eq!(text(&sample()), "&(12,|(0,7,105),\\(13,10))");
    assert_eq!(text(&or(vec![])), "|()");
    assert_eq!(text(&leaf(usize::MAX)), usize::MAX.to_string());
    let mut f =
        Feat { leaves: 1, depth: 9, ands: 0, ors: 0, diffs: 0, class: [0, 0, 0, 5], max_width: 2 };
    featurize(&sample(), &mut f);
    assert_eq!((f.leaves, f.depth, f.ands, f.ors, f.diffs), (7, 9, 1, 1, 1));
    assert_eq!((f.class, f.max_width), ([1, 1, 3, 6], 3));
}

#[test]
fn named_shapes() {
    let shapes: Vec<(&str, String)> = named().iter().map(|(n, s)| (*n, text(s))).collect();
    assert_eq!(
        shapes,
        vec![
            ("cnf3", "&(|(0,1,6),|(2,7),|(10,11))".to_string()),
            ("conj5", "&(&(6,7),8,&(9,12))".to_string()),
            ("filter", "&(12,|(0,1,2,3),\\(13,10))".to_string()),
            ("dnf", "|(&(6,7),&(8,9),4)".to_string()),
        ]
    );
}

#[test]
fn pillars_are_of_both_extremes() {
    let mut st = 3u64;
    for _ in 0..50 {
        let t = gen_pillar(&mut st, 27);
        assert_eq!((count_leaves(&t), depth_of(&t)), (100, 15));
    }
}

#[test]
fn profiled_trees_keep_their_budget() {
    let mut st = 11u64;
    for i in 0..400usize {
        let prof = Profile {
            leaf_pct: splitmix64(&mut st) % 45,
            diff_pct: splitmix64(&mut st) % 35,
            or_pct: 20 + splitmix64(&mut st) % 60,
            wide: i % 2 == 0,
        };
        let (budget, depth) = (1 + i % 100, i % 16);
        let t = gen_profiled(&mut st, budget, depth, &prof, 27);
        assert!(count_leaves(&t) <= budget && count_leaves(&t) >= 1);
        assert!(depth_of(&t) <= depth + 1);
        let mut leaves = Vec::new();
        collect_leaves(&t, &mut leaves);
        assert!(leaves.iter().all(|&l| l < 27));
    }
}

#[test]
fn first_draws_of_a_tree() {
    // A tree of one leaf takes one draw.
    let (mut a, mut b) = (5u64, 5u64);
    let t = gen(&mut a, 1, 9);
    assert_eq!(text(&t), (splitmix64(&mut b) as usize % 9).to_string());
    assert_eq!(a, b);
    let mut st = 1u64;
    for budget in [3usize, 9, 22, 45] {
        let t = gen(&mut st, budget, 27);
        let mut leaves = Vec::new();
        collect_leaves(&t, &mut leaves);
        assert!(leaves.iter().all(|&l| l < 27));
        assert_eq!(leaves.len(), count_leaves(&t));
    }
}

#[test]
fn families_over_the_pool() {
    let mut st = 8u64;
    for _ in 0..300 {
        let t = gen_family(&mut st, 27);
        let mut leaves = Vec::new();
        collect_leaves(&t, &mut leaves);
        assert!(!leaves.is_empty() && leaves.iter().all(|&l| l < 27));
    }
}

#[test]
fn a_corpus_is_the_same_every_time() {
    let a = corpus_specs(300, 27);
    let b = corpus_specs(300, 27);
    assert_eq!(a.len(), 600);
    assert!(a.iter().zip(&b).all(|(x, y)| text(x) == text(y)));
    let full = a.iter().filter(|s| count_leaves(s) == 100 && depth_of(s) == 15).count();
    assert!(full >= 100);
    for t in &a[..300] {
        assert!(count_leaves(t) <= 100 && depth_of(t) <= 15);
    }
    for t in &a[200..300] {
        assert_eq!((count_leaves(t), depth_of(t)), (100, 15));
    }
    assert!(corpus_specs(0, 27).is_empty());
}

#[test]
fn small_pool_parity() {
    let inputs: Vec<Vec<u32>> = (0..27u32)
        .map(|i| (0..400).map(|j| j * (i + 3) + (i % 5) * 65_536).collect())
        .collect();
    let pool = Workload::new(&inputs);
    for (i, spec) in corpus_specs(120, 27).iter().enumerate() {
        let got = fb_vec(&build_fb(spec, &pool).materialize());
        assert_eq!(got, rb_vec(&eval_rb(spec, &pool)), "{i}: {}", text(spec));
    }
}

#[test]
fn mixed_pool_entries() {
    let inputs = mixed_inputs();
    let sizes: Vec<usize> = inputs.iter().map(|v| v.len()).collect();
    assert_eq!(sizes.len(), 27);
    assert!(sizes[0] <= 1200 && sizes[0] > 1150);
    assert_eq!(sizes[14], 20 * 8 * 3000);
    assert_eq!(&sizes[17..24], &[40, 40, 9000, 65536, 4000, 4000, 4000]);
    assert_eq!(&sizes[24..], &[240_000, 360_000, 24]);
    assert_eq!(inputs[18][0], 13);
    assert_eq!(inputs[22][0], 800 << 16);
    assert_eq!(inputs[25][1], 2);
    assert_eq!(inputs[26].last(), Some(&(23 * 65536 + 23 * 101)));
    assert!(inputs.iter().all(|v| v.windows(2).all(|w| w[0] < w[1])));
}

#[test]
fn named_shapes_over_a_part_of_the_pool() {
    let inputs: Vec<Vec<u32>> =
        mixed_inputs().into_iter().map(|v| v.into_iter().take(9000).collect()).collect();
    let pool = Workload::new(&inputs);
    for (name, spec) in named() {
        let got = build_fb(&spec, &pool).materialize();
        assert_eq!(fb_vec(&got), rb_vec(&eval_rb(&spec, &pool)), "{name}");
    }
}
