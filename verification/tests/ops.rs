use frostbit::engines::{rb_and, rb_diff, rb_or, rb_vec, Workload};
use frostbit::difference::diff_into;
use frostbit::intersect::intersect_into;
use frostbit::union::union_into;
use frostbit::{
    difference_compact, difference_fast, intersect_compact, intersect_fast, union_compact,
    union_fast, FrozenBitmap, FrozenBitmapBuilder, FrozenBitmapView,
};
use std::collections::BTreeSet;

fn build(vals: &[u32], standard: bool) -> FrozenBitmap {
    let mut b = FrozenBitmapBuilder::new();
    b.extend_sorted(vals);
    if standard {
        b.finish_standard()
    } else {
        b.finish()
    }
}

fn splitmix(s: &mut u64) -> u64 {
    *s = s.wrapping_add(0x9E37_79B9_7F4A_7C15);
    let mut z = *s;
    z = (z ^ (z >> 30)).wrapping_mul(0xBF58_476D_1CE4_E5B9);
    z = (z ^ (z >> 27)).wrapping_mul(0x94D0_49BB_1331_11EB);
    z ^ (z >> 31)
}

/// A random set of up to six blocks, each scattered, dense, of runs or full.
fn random_set(s: &mut u64) -> Vec<u32> {
    let mut out = BTreeSet::new();
    for key in 0..6u32 {
        let base = key << 16;
        match splitmix(s) % 7 {
            0 | 1 => {}
            2 => {
                for _ in 0..splitmix(s) % 40 {
                    out.insert(base + (splitmix(s) % 65536) as u32);
                }
            }
            3 => {
                for _ in 0..3900 + splitmix(s) % 400 {
                    out.insert(base + (splitmix(s) % 65536) as u32);
                }
            }
            4 => {
                for _ in 0..9000 {
                    out.insert(base + (splitmix(s) % 65536) as u32);
                }
            }
            5 => {
                let mut at = (splitmix(s) % 500) as u32;
                while at < 65000 {
                    let len = 1 + (splitmix(s) % 900) as u32;
                    out.extend((at..(at + len).min(65536)).map(|l| base + l));
                    at += len + 1 + (splitmix(s) % 2000) as u32;
                }
            }
            _ => out.extend((0..65536).map(|l| base + l)),
        }
    }
    out.into_iter().collect()
}

fn naive(op: u8, sets: &[Vec<u32>]) -> Vec<u32> {
    if sets.is_empty() {
        return Vec::new();
    }
    let sets: Vec<BTreeSet<u32>> = sets.iter().map(|s| s.iter().copied().collect()).collect();
    match op {
        0 => sets[0].iter().copied().filter(|x| sets.iter().all(|s| s.contains(x))).collect(),
        1 => {
            let mut all = BTreeSet::new();
            for s in &sets {
                all.extend(s.iter().copied());
            }
            all.into_iter().collect()
        }
        _ => sets[0]
            .iter()
            .copied()
            .filter(|x| !sets[1..].iter().any(|s| s.contains(x)))
            .collect(),
    }
}

fn type_of(b: &[u8], i: usize) -> u8 {
    let n = u32::from_le_bytes([b[8], b[9], b[10], b[11]]) as usize;
    let o = 16 + 4 * n + 4 * i;
    b[o + 3] >> 6
}

#[test]
fn folds_match_naive() {
    let mut s = 0xF01D_u64;
    for round in 0..24 {
        let n = 1 + (splitmix(&mut s) % 5) as usize;
        let sets: Vec<Vec<u32>> = (0..n).map(|_| random_set(&mut s)).collect();
        let bms: Vec<FrozenBitmap> =
            sets.iter().enumerate().map(|(i, v)| build(v, i % 2 == 0)).collect();
        let views: Vec<FrozenBitmapView> = bms.iter().map(|b| b.view()).collect();
        assert_eq!(intersect_fast(&views).values(), naive(0, &sets), "{round}");
        assert_eq!(union_fast(&views).values(), naive(1, &sets), "{round}");
        assert_eq!(difference_fast(&views).values(), naive(2, &sets), "{round}");
        assert!(intersect_compact(&views) == intersect_fast(&views));
        assert!(union_compact(&views) == union_fast(&views));
        assert!(difference_compact(&views) == difference_fast(&views));
    }
}

#[test]
fn small_inputs_match_naive() {
    let mut s = 0x5AA1_u64;
    for _ in 0..300 {
        let n = (splitmix(&mut s) % 4) as usize;
        let sets: Vec<Vec<u32>> = (0..n)
            .map(|_| {
                let mut v: BTreeSet<u32> = BTreeSet::new();
                for _ in 0..splitmix(&mut s) % 60 {
                    v.insert((splitmix(&mut s) % 200_000) as u32);
                }
                v.into_iter().collect()
            })
            .collect();
        let bms: Vec<FrozenBitmap> =
            sets.iter().enumerate().map(|(i, v)| build(v, i % 2 == 0)).collect();
        let views: Vec<FrozenBitmapView> = bms.iter().map(|b| b.view()).collect();
        assert_eq!(intersect_fast(&views).values(), naive(0, &sets));
        assert_eq!(union_fast(&views).values(), naive(1, &sets));
        assert_eq!(difference_fast(&views).values(), naive(2, &sets));
    }
}

#[test]
fn degenerate_inputs() {
    assert!(intersect_fast(&[]).is_empty());
    assert!(union_fast(&[]).is_empty());
    assert!(difference_fast(&[]).is_empty());
    let a = build(&[1, 2, 70_000], false);
    for r in [
        intersect_fast(&[a.view()]),
        union_fast(&[a.view()]),
        difference_fast(&[a.view()]),
        intersect_compact(&[a.view()]),
    ] {
        assert_eq!(r.values(), vec![1, 2, 70_000]);
        assert!(!r.view().is_inline());
    }
    let e = FrozenBitmap::empty();
    assert!(intersect_fast(&[a.view(), e.view()]).is_empty());
    assert!(difference_fast(&[e.view(), a.view()]).is_empty());
    assert_eq!(union_fast(&[e.view(), a.view()]).values(), vec![1, 2, 70_000]);
    assert!(difference_fast(&[a.view(), a.view()]).is_empty());
}

#[test]
fn order_of_operands() {
    let a = build(&(0..5000).map(|i| i * 3).collect::<Vec<_>>(), true);
    let b = build(&(0..5000).map(|i| i * 5).collect::<Vec<_>>(), true);
    let c = build(&(0..70_000).collect::<Vec<_>>(), true);
    let (x, y, z) = (a.view(), b.view(), c.view());
    assert!(intersect_fast(&[x, y, z]) == intersect_fast(&[z, x, y]));
    assert!(union_fast(&[x, y, z]) == union_fast(&[y, z, x]));
    assert!(difference_fast(&[z, x, y]) == difference_fast(&[z, y, x]));
}

#[test]
fn compact_has_no_sparse_bitmap() {
    // Two bitmaps that share few values.
    let a: Vec<u32> = (0..6000).map(|i| i * 2).collect();
    let b: Vec<u32> = (0..6000).map(|i| i * 2 + if i % 100 == 0 { 0 } else { 1 }).collect();
    let (fa, fb) = (build(&a, true), build(&b, true));
    assert_eq!(type_of(fa.as_bytes(), 0), 1);
    let r = intersect_compact(&[fa.view(), fb.view()]);
    assert_eq!(r.len(), 60);
    assert_eq!(type_of(r.as_bytes(), 0), 0);
    assert_eq!(r.byte_len(), 16 + 8 + 120);
    // A dense result of few runs is stored as runs.
    let u = union_compact(&[fa.view(), fb.view()]);
    assert_eq!(u.len(), 11_940);
    assert_eq!(type_of(u.as_bytes(), 0), 2);
    assert_eq!(u.byte_len(), 16 + 8 + 2 + 4 * 61);
    // A dense result of many runs stays a bitmap, 64-aligned.
    let c: Vec<u32> = (0..6000).map(|i| i * 3).collect();
    let d: Vec<u32> = (0..6000).map(|i| i * 3 + 1).collect();
    let (fc, fd) = (build(&c, true), build(&d, true));
    let v = union_compact(&[fc.view(), fd.view()]);
    assert_eq!(v.len(), 12_000);
    assert_eq!(type_of(v.as_bytes(), 0), 1);
    assert_eq!(v.byte_len(), 64 + 8192);
}

#[test]
fn storage_results_are_what_a_builder_writes() {
    let mut s = 0xCA17_u64;
    for _ in 0..8 {
        let sets: Vec<Vec<u32>> = (0..3).map(|_| random_set(&mut s)).collect();
        let bms: Vec<FrozenBitmap> =
            sets.iter().enumerate().map(|(i, v)| build(v, i % 2 == 1)).collect();
        let views: Vec<FrozenBitmapView> = bms.iter().map(|b| b.view()).collect();
        let pairs = [
            (intersect_compact(&views), intersect_fast(&views)),
            (union_compact(&views), union_fast(&views)),
            (difference_compact(&views), difference_fast(&views)),
        ];
        for (op, (small, fast)) in pairs.iter().enumerate() {
            assert!(*small == build(&naive(op as u8, &sets), true));
            assert_eq!(small.values(), fast.values());
            assert!(small.byte_len() <= fast.byte_len());
        }
    }
}

#[test]
fn arenas_serialize_for_storage() {
    let a: Vec<u32> = (0..6000).map(|i| i * 2).collect();
    let b: Vec<u32> = (0..6000).map(|i| i * 2 + if i % 100 == 0 { 0 } else { 1 }).collect();
    let (fa, fb) = (build(&a, true), build(&b, true));
    let views = [fa.view(), fb.view()];
    // Few values of a bitmap become an array, many stay a bitmap.
    let r = intersect_into(&views[..]).serialize_compact();
    assert_eq!((r.len(), type_of(r.as_bytes(), 0)), (60, 0));
    let r = union_into(&views[..]).serialize_compact();
    assert_eq!((r.len(), type_of(r.as_bytes(), 0)), (11_940, 1));
    let r = diff_into(&views[..]).serialize_compact();
    assert_eq!((r.len(), type_of(r.as_bytes(), 0)), (5940, 1));
    assert!(r == diff_into(&views[..]).serialize());
}

#[test]
fn results_read_back() {
    let mut s = 0xBAC0_u64;
    let sets: Vec<Vec<u32>> = (0..4).map(|_| random_set(&mut s)).collect();
    let bms: Vec<FrozenBitmap> = sets.iter().map(|v| build(v, true)).collect();
    let views: Vec<FrozenBitmapView> = bms.iter().map(|b| b.view()).collect();
    for r in [intersect_fast(&views), union_fast(&views), difference_fast(&views)] {
        let again = FrozenBitmap::from_bytes(r.as_bytes()).unwrap();
        assert!(again == r);
    }
}

/// Five sets of two blocks each, before and after roaring's own run encoding.
fn compare_with_roaring(seed: u64) {
    let mut s = seed;
    let sets: Vec<Vec<u32>> = (0..5)
        .map(|_| random_set(&mut s).into_iter().filter(|v| *v < 2 << 16).collect())
        .collect();
    let mut w = Workload::new(&sets);
    for pass in 0..2 {
        let views = w.views(5);
        assert_eq!(intersect_fast(&views).values(), rb_vec(&rb_and(&w.rbs)));
        assert_eq!(union_fast(&views).values(), rb_vec(&rb_or(&w.rbs)));
        assert_eq!(difference_fast(&views).values(), rb_vec(&rb_diff(&w.rbs)));
        assert_eq!(difference_fast(&views[..2]).values(), rb_vec(&rb_diff(&w.rbs[..2])));
        if pass == 0 {
            w.optimize_roaring();
        }
    }
}

#[test]
fn same_as_roaring() {
    compare_with_roaring(0x9A21);
    assert!(rb_vec(&rb_and(&[])).is_empty());
    assert!(rb_vec(&rb_or(&[])).is_empty());
    assert!(rb_vec(&rb_diff(&[])).is_empty());
}

#[test]
fn same_as_roaring_again() {
    compare_with_roaring(0x51ED_270B);
}

#[test]
fn same_as_roaring_once_more() {
    compare_with_roaring(0x7E57_0004);
}

#[test]
fn compact_is_never_longer() {
    let mut s = 0xC0_u64;
    for _ in 0..12 {
        let sets: Vec<Vec<u32>> = (0..3).map(|_| random_set(&mut s)).collect();
        let bms: Vec<FrozenBitmap> = sets.iter().map(|v| build(v, true)).collect();
        let v: Vec<FrozenBitmapView> = bms.iter().map(|b| b.view()).collect();
        assert!(intersect_compact(&v).byte_len() <= intersect_fast(&v).byte_len());
        assert!(union_compact(&v).byte_len() <= union_fast(&v).byte_len());
        assert!(difference_compact(&v).byte_len() <= difference_fast(&v).byte_len());
    }
    // 3000 values: too many for a fold to turn a bitmap into an array, few enough for one.
    let a: Vec<u32> = (0..9000).map(|i| i * 2).collect();
    let b: Vec<u32> = (0..9000).map(|i| i * 6).collect();
    let (fa, fb) = (build(&a, true), build(&b, true));
    let v = [fa.view(), fb.view()];
    let (fast, compact) = (intersect_fast(&v), intersect_compact(&v));
    assert_eq!(fast.len(), 3000);
    assert_eq!((type_of(fast.as_bytes(), 0), fast.byte_len()), (1, 64 + 8192));
    assert_eq!((type_of(compact.as_bytes(), 0), compact.byte_len()), (0, 24 + 6000));
}

#[test]
fn forms_of_results() {
    let (array, bitmap, run) = (0, 1, 2);
    let even = build(&(0..9000).map(|i| i * 2).collect::<Vec<_>>(), true);
    let odd = build(&(0..9000).map(|i| i * 2 + 1).collect::<Vec<_>>(), true);
    let few = build(&[1, 4, 9, 16, 25], true);
    let low = build(&(0..30_000).collect::<Vec<_>>(), true);
    let mid = build(&(20_000..50_000).collect::<Vec<_>>(), true);
    let typ = |r: FrozenBitmap| type_of(r.as_bytes(), 0);
    assert_eq!(type_of(even.as_bytes(), 0), bitmap);
    assert_eq!(type_of(low.as_bytes(), 0), run);
    // An intersection is an array where an operand is small, runs where all are.
    assert_eq!(typ(intersect_fast(&[low.view(), few.view()])), array);
    assert_eq!(typ(intersect_fast(&[low.view(), mid.view()])), run);
    assert_eq!(typ(intersect_fast(&[low.view(), even.view()])), bitmap);
    // A union is an array while it is small, runs where all are, else a bitmap.
    assert_eq!(typ(union_fast(&[few.view(), few.view()])), array);
    assert_eq!(typ(union_fast(&[low.view(), mid.view()])), run);
    assert_eq!(typ(union_fast(&[even.view(), odd.view()])), bitmap);
    // What nothing is taken from stays as it is; runs split by runs and arrays stay runs.
    assert_eq!(typ(difference_fast(&[even.view()])), bitmap);
    assert_eq!(typ(difference_fast(&[low.view(), mid.view()])), run);
    assert_eq!(typ(difference_fast(&[low.view(), few.view()])), run);
    assert_eq!(typ(difference_fast(&[low.view(), odd.view()])), bitmap);
    assert_eq!(typ(difference_fast(&[few.view(), mid.view()])), array);
}

#[test]
fn results_are_laid_out_alike() {
    // The same values in the same form, from different operands.
    let a = build(&[1, 5, 70_000], true);
    let b = build(&[9, 70_002], true);
    let c = build(&[1, 9, 70_000, 70_002], true);
    let d = build(&[5], true);
    let x = union_fast(&[a.view(), b.view()]);
    let y = union_fast(&[c.view(), d.view()]);
    assert_eq!(x.as_bytes(), y.as_bytes());
    assert_eq!(x.byte_len(), 32 + 6 + 4);
}

#[test]
fn runs_coalesce_before_they_count() {
    // Three times the same thousand runs: together they are past the run ceiling.
    let block = |key: u32| (0..1000u32).flat_map(move |i| (0..10).map(move |v| (key << 16) + i * 60 + v));
    let one = build(&block(0).collect::<Vec<u32>>(), true);
    assert_eq!(type_of(one.as_bytes(), 0), 2);
    // A few slots are folded input by input, and the runs stay a thousand.
    let r = union_fast(&[one.view(), one.view(), one.view()]);
    assert_eq!((r.len(), type_of(r.as_bytes(), 0)), (10_000, 2));
    assert_eq!(r.byte_len(), one.byte_len());
    // Many are folded key by key, into bitmaps.
    let many = build(&(0..9).flat_map(block).collect::<Vec<u32>>(), true);
    let r = union_fast(&[many.view(), many.view(), many.view()]);
    assert_eq!(r.len(), 90_000);
    assert!((0..9).all(|i| type_of(r.as_bytes(), i) == 1));
    assert!(union_compact(&[many.view(), many.view()]) == many);
}
