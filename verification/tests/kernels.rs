use frostbit::accum::{retain_bitmap, retain_runs};
use frostbit::container::Run;
use frostbit::decide::{
    diff_cap, diff_key_shape, intersect_key, shrink_cap, union_promotes, union_promotes_interior,
    Choice, DiffLhs,
};
use frostbit::format::{CT_ARRAY, CT_BITMAP, CT_RUN};
use frostbit::keymask::KeyMask;
use frostbit::plan::{plan_diff, plan_intersect, plan_union, Op};
use frostbit::run;
use frostbit::trials::{byte_table, extract_bytes, union_kway};
use frostbit::words::{
    and_count, andnot_into_count, clear, clear_runs, copy, fill, or_count, popcount, set_runs,
    set_values, test_value, to_array,
};
use frostbit::FrozenBitmapBuilder;

fn bits(vals: &[u16]) -> Box<[u64; 1024]> {
    let mut b = Box::new([0u64; 1024]);
    set_values(&mut b, vals);
    b
}

fn listed(b: &[u64; 1024]) -> Vec<u16> {
    let mut out = vec![0u16; 65536];
    let n = to_array(b, &mut out);
    out.truncate(n);
    out
}

#[test]
fn word_kernels() {
    let a = bits(&[0, 63, 64, 1000, 65535]);
    let b = bits(&[63, 1000, 2000]);
    assert_eq!(popcount(&a), 5);
    assert_eq!(listed(&a), vec![0, 63, 64, 1000, 65535]);
    let mut x = a.clone();
    assert_eq!(and_count(&mut x, &b), 2);
    assert_eq!(listed(&x), vec![63, 1000]);
    let mut x = a.clone();
    assert_eq!(or_count(&mut x, &b), 6);
    let mut x = Box::new([u64::MAX; 1024]);
    assert_eq!(andnot_into_count(&mut x, &a, &b), 3);
    assert_eq!(listed(&x), vec![0, 64, 65535]);
    copy(&mut x, &b);
    assert_eq!(x, b);
    clear(&mut x);
    assert_eq!(popcount(&x), 0);
    fill(&mut x, 60, 130, true);
    assert_eq!(listed(&x), (60..=130).collect::<Vec<u16>>());
    fill(&mut x, 61, 129, false);
    assert_eq!(listed(&x), vec![60, 130]);
    set_runs(&mut x, &[Run { start: 65530, len: 5 }]);
    assert_eq!(popcount(&x), 8);
    assert!(test_value(&x, 65535) && !test_value(&x, 65529));
}

#[test]
fn runs_into_bits_in_any_order() {
    let runs = [Run { start: 100, len: 20 }, Run { start: 5, len: 3 }, Run { start: 110, len: 20 }];
    let mut x = Box::new([0u64; 1024]);
    set_runs(&mut x, &runs);
    assert_eq!(listed(&x), (5..=8).chain(100..=130).collect::<Vec<u16>>());
    clear_runs(&mut x, &[runs[2], runs[0]]);
    assert_eq!(listed(&x), vec![5, 6, 7, 8]);
    clear_runs(&mut x, &runs[1..]);
    assert_eq!(popcount(&x), 0);
}

#[test]
fn run_kernels() {
    let mk = |off: u16| -> Vec<Run> {
        (0..64u16).map(|i| Run { start: off + i * 1000, len: 499 }).collect()
    };
    let (a, b) = (mk(0), mk(250));
    let mut out = vec![Run { start: 0, len: 0 }; 200];
    let (n, card) = run::intersect(&a, &b, &mut out);
    assert_eq!((n, card), (64, 64 * 250));
    assert_eq!(out[1], Run { start: 1250, len: 249 });
    let (n, card) = run::union(&a, &b, &mut out);
    assert_eq!((n, card), (64, 64 * 750));
    assert_eq!(out[63], Run { start: 63000, len: 749 });
    let (n, card) = run::diff(&a, &b, &mut out);
    assert_eq!((n, card), (64, 64 * 250));
    assert_eq!(out[0], Run { start: 0, len: 249 });
    let (n, card) = run::diff_array(&a[..1], &[0, 100, 499, 700], &mut out);
    assert_eq!((n, card), (2, 497));
    assert_eq!(&out[..2], &[Run { start: 1, len: 98 }, Run { start: 101, len: 397 }]);
}

#[test]
fn in_place_filters() {
    let runs = [Run { start: 10, len: 9 }, Run { start: 100, len: 0 }];
    let mut acc = vec![5u16, 10, 19, 20, 100, 101];
    assert_eq!(retain_runs(&mut acc, 6, &runs, true), 3);
    assert_eq!(&acc[..3], &[10, 19, 100]);
    let mut acc = vec![5u16, 10, 19, 20, 100, 101];
    assert_eq!(retain_runs(&mut acc, 6, &runs, false), 3);
    assert_eq!(&acc[..3], &[5, 20, 101]);
    let b = bits(&[10, 20]);
    let mut acc = vec![5u16, 10, 19, 20];
    assert_eq!(retain_bitmap(&mut acc, 4, &b, true), 2);
    assert_eq!(&acc[..2], &[10, 20]);
    let mut acc = vec![5u16, 10, 19, 20];
    assert_eq!(retain_bitmap(&mut acc, 4, &b, false), 2);
    assert_eq!(&acc[..2], &[5, 19]);
}

#[test]
fn one_pass_union() {
    let a: Vec<u16> = (0..800).map(|i| i * 3).collect();
    let b: Vec<u16> = (0..800).map(|i| i * 5).collect();
    let c: Vec<u16> = vec![1, 1, 2, 2, 65535];
    let mut out = vec![0u16; 4096];
    let n = union_kway(&[&a, &b, &c, &[]], &mut out);
    let want: std::collections::BTreeSet<u16> =
        a.iter().chain(&b).chain(&c).copied().collect();
    assert_eq!(&out[..n], want.into_iter().collect::<Vec<u16>>().as_slice());
    assert_eq!(union_kway(&[], &mut out), 0);
}

#[test]
fn extraction_by_table() {
    let table = byte_table();
    assert_eq!(table[0b1010_0001], [0, 5, 7, 0, 0, 0, 0, 0]);
    for vals in [vec![], vec![0u16], vec![7, 8, 9, 4000, 65535], (0..9000u16).map(|i| i * 7).collect()] {
        let b = bits(&vals);
        let mut out = vec![0u16; vals.len() + 7];
        let n = extract_bytes(&table, &b, &mut out);
        assert_eq!(&out[..n], vals.as_slice());
    }
}

#[test]
fn key_masks() {
    let mut m = KeyMask::empty();
    assert!(!m.contains(0));
    m.set(0);
    m.set(65535);
    let mut k = KeyMask::empty();
    k.set(65535);
    k.set(7);
    let mut both = KeyMask::empty();
    both.union_with(&m);
    both.intersect_with(&k);
    assert!(both.contains(65535) && !both.contains(0) && !both.contains(7));
    m.union_with(&k);
    assert!(m.contains(0) && m.contains(7) && m.contains(65535) && !m.contains(8));
}

#[test]
fn capacities() {
    assert_eq!(shrink_cap(10), 20);
    assert_eq!(shrink_cap(4096), 8192);
    assert_eq!(shrink_cap(4097), 8192);
    assert_eq!(intersect_key(50, true, 3), Choice { typ: CT_ARRAY, cap: 100, runs: 0 });
    assert_eq!(intersect_key(5000, true, 3), Choice { typ: CT_RUN, cap: 8192, runs: 3 });
    assert_eq!(intersect_key(5000, false, 3), Choice { typ: CT_BITMAP, cap: 8192, runs: 0 });
    assert_eq!((diff_cap(10, 6, false), diff_cap(10, 6, true)), (6, 20));
    let lhs = DiffLhs { card: 5000, typ: CT_RUN, runs: 2, stored: 10 };
    assert_eq!(diff_key_shape(&lhs, false, true, 9), Choice { typ: CT_RUN, cap: 10, runs: 2 });
    assert_eq!(diff_key_shape(&lhs, true, true, 9), Choice { typ: CT_RUN, cap: 8192, runs: 9 });
    assert_eq!(diff_key_shape(&lhs, true, false, 9), Choice { typ: CT_BITMAP, cap: 8192, runs: 0 });
    // At a fan-in of two the break-even is past any cardinality: 85 * 6 - 172 - 170 = 168.
    assert!(!union_promotes(1, u32::MAX));
    assert!(!union_promotes(2, 476));
    assert!(union_promotes(2, 477));
    assert!(!union_promotes_interior(3, u32::MAX));
    assert!(!union_promotes_interior(4, 1000));
    assert!(union_promotes_interior(4, 1001));
}

#[test]
fn plans_cover_their_results() {
    let sets: Vec<Vec<u32>> = vec![
        (0..3000).map(|i| i * 50).collect(),
        (0..30_000).map(|i| i * 4).collect(),
        (65_536..140_000).collect(),
    ];
    let bms: Vec<_> = sets
        .iter()
        .map(|v| {
            let mut b = FrozenBitmapBuilder::new();
            b.extend_sorted(v);
            b.finish()
        })
        .collect();
    let views: Vec<_> = bms.iter().map(|b| b.view()).collect();
    let p = plan_intersect(views.as_slice());
    assert_eq!(p.op, Op::Intersect);
    assert_eq!(p.scratch_bytes, 2 * 8192);
    assert_eq!(p.slots.iter().map(|s| s.key).collect::<Vec<_>>(), vec![1]);
    assert!(p.slots[0].capacity >= 2 * 1311);
    let p = plan_union(views.as_slice());
    assert_eq!(p.slots.iter().map(|s| s.key).collect::<Vec<_>>(), vec![0, 1, 2]);
    let p = plan_diff(views.as_slice());
    assert_eq!(p.slots.iter().map(|s| s.key).collect::<Vec<_>>(), vec![0, 1, 2]);
    assert!(p.slots.iter().all(|s| s.capacity <= 8192));
}

#[test]
fn runs_stay_apart() {
    let runs = |v: &[(u16, u16)]| -> Vec<Run> {
        v.iter().map(|&(start, last)| Run { start, len: last - start }).collect()
    };
    let a = runs(&[(0, 9), (20, 29)]);
    let b = runs(&[(5, 6), (8, 24)]);
    let mut out = vec![Run { start: 0, len: 0 }; 8];
    let (n, card) = run::intersect(&a, &b, &mut out);
    assert_eq!((n, card), (3, 9));
    assert!(out[..n].iter().map(|r| (r.start, r.end())).eq([(5, 6), (8, 9), (20, 24)]));
    let (n, card) = run::union(&a, &b, &mut out);
    assert_eq!((n, card), (1, 30));
    // Adjacent runs of one side become one, whatever the other side holds.
    let mut rest = vec![Run { start: 9, len: 9 }; 3];
    let (n, card) = run::union(&[], &runs(&[(0, 4), (5, 5)]), &mut rest);
    assert_eq!((n, card), (1, 6));
    assert_eq!(rest, [Run { start: 0, len: 5 }, Run { start: 9, len: 9 }, Run { start: 9, len: 9 }]);
    let (n, card) = run::union(&runs(&[(0, 4), (5, 5)]), &[], &mut rest);
    assert_eq!((n, card, rest[1].start), (1, 6, 9));
    let (n, card) = run::diff(&a, &b, &mut out);
    assert_eq!((n, card), (3, 11));
    assert!(out[..n].iter().map(|r| (r.start, r.end())).eq([(0, 4), (7, 7), (25, 29)]));
    let (n, card) = run::diff_array(&a, &[0, 3, 9, 22], &mut out);
    assert_eq!((n, card), (4, 16));
    assert!(out[..n].iter().map(|r| (r.start, r.end())).eq([(1, 2), (4, 8), (20, 21), (23, 29)]));
}
