use frostbit::engines::{fb_vec, rb_vec, Workload};
use frostbit::workload::{
    arrays, at, band, dense, full_keys, key_band, random_halves, run_count, run_ranges, runs,
    sorted, splitmix64, steps, thin, window,
};
use std::collections::BTreeSet;

fn ascending(v: &[u32]) -> bool {
    v.windows(2).all(|w| w[0] < w[1])
}

#[test]
fn stream_of_splitmix64() {
    let mut s = 0u64;
    assert_eq!(splitmix64(&mut s), 0xE220_A839_7B1D_CDAF);
    assert_eq!(splitmix64(&mut s), 0x6E78_9E6A_A1B9_65F4);
    assert_eq!(splitmix64(&mut s), 0x06C4_5D18_8009_454F);
    let mut s = 1_234_567u64;
    assert_eq!(splitmix64(&mut s), 6_457_827_717_110_365_317);
}

#[test]
fn sorting() {
    assert_eq!(sorted(vec![5, 1, 5, 0, u32::MAX, 1]), vec![0, 1, 5, u32::MAX]);
    assert!(sorted(vec![]).is_empty());
    assert_eq!(at(3, 7), 0x0003_0007);
}

#[test]
fn scattered_values() {
    let mut st = 42u64;
    let a = arrays(4, 100, &mut st);
    // The same draws by hand.
    let mut s2 = 42u64;
    let mut want = BTreeSet::new();
    for k in 0..4u16 {
        for _ in 0..100 {
            want.insert(at(k, (splitmix64(&mut s2) % 65536) as u16));
        }
    }
    assert_eq!(a, want.into_iter().collect::<Vec<u32>>());
    assert_eq!(st, s2);
    let mut s3 = 42u64;
    let d = dense(4, 100, 1000, &mut s3);
    assert_eq!(st, s3);
    let shifted: BTreeSet<u32> =
        a.iter().map(|v| (v & 0xFFFF_0000) | ((v + 1000) & 0xFFFF)).collect();
    assert_eq!(d, shifted.into_iter().collect::<Vec<u32>>());
    assert_eq!(thin(4, 100, 0, &mut 42u64), a);
    assert_eq!(key_band(0, 4, 100, &mut 42u64), a);
    assert_eq!(band(0, 4, 100, &mut 42u64), a);
    // A band that runs past the last key ends with it.
    let last = key_band(65535, 3, 5, &mut 1u64);
    assert_eq!(last, key_band(65535, 1, 5, &mut 1u64));
    assert_eq!(last.len(), 5);
    assert!(last.iter().all(|v| v >> 16 == 65535));
    let full = full_keys(65535, 1);
    assert_eq!(full, (0xFFFF_0000..=0xFFFF_FFFF).collect::<Vec<u32>>());
    assert!(band(5, 3, 5, &mut 1u64).is_empty());
    let w = window(2, 100, 110, 50, &mut 9u64);
    assert!(ascending(&w));
    assert!(w.iter().all(|v| (100..110).contains(&(v & 0xFFFF))));
}

#[test]
fn blocks_of_runs() {
    let r = runs(2, 3000, 5000);
    let want: Vec<u32> = (0..2u32)
        .flat_map(|k| (0..8u32).flat_map(move |i| (0..3000).map(move |j| (k << 16) + i * 8000 + j)))
        .collect();
    assert_eq!(r, want);
    assert!(runs(3, 65537, 0).is_empty());
    assert_eq!(runs(1, 65536, 0).len(), 65536);
}

#[test]
fn long_ranges() {
    let r = run_ranges(1, 4, 6000, 1500);
    let want: BTreeSet<u32> =
        (0..4u32).flat_map(|i| i * 16384 + 1500..=i * 16384 + 7500).collect();
    assert_eq!(r, want.into_iter().collect::<Vec<u32>>());
    // A range is cut at the end of its block.
    let r = run_ranges(1, 4, 6000, 16000);
    assert_eq!(r.last(), Some(&65535));
    assert_eq!(r.iter().filter(|&&v| v >= 65152).count(), 384);
    assert!(!r.contains(&65151));
}

#[test]
fn counted_runs() {
    let r = run_count(1, 2040, 3);
    let starts = r.iter().filter(|&&v| v == 0 || r.binary_search(&(v - 1)).is_err()).count();
    assert_eq!(starts, 2040);
    assert_eq!(r[0], 3);
    assert_eq!(r.len(), 2040 * 16);
    assert!(ascending(&r));
}

#[test]
fn whole_blocks_and_steps() {
    assert_eq!(full_keys(2, 1), (2 << 16..3 << 16).collect::<Vec<u32>>());
    assert_eq!(full_keys(0, 2).len(), 131_072);
    assert_eq!(steps(1, 5, 10, 3), vec![5, 15, 25]);
    assert_eq!(steps(2, 0, 2, 2), vec![0, 2, 65536, 65538]);
    assert!(steps(0, 0, 1, 3).is_empty());
}

#[test]
fn shuffled_halves() {
    let mut st = 7u64;
    let (a, b) = random_halves(500, &mut st);
    assert_eq!((a.len(), b.len()), (500, 500));
    let mut all: Vec<u16> = a.iter().chain(b.iter()).copied().collect();
    all.sort_unstable();
    assert_eq!(all, (0..1000).collect::<Vec<u16>>());
    assert!(a.windows(2).all(|w| w[0] < w[1]));
    // The same shuffle by hand.
    let mut s2 = 7u64;
    let mut idx: Vec<u16> = (0..1000).collect();
    for i in (1..1000usize).rev() {
        idx.swap(i, splitmix64(&mut s2) as usize % (i + 1));
    }
    let mut half: Vec<u16> = idx[..500].to_vec();
    half.sort_unstable();
    assert_eq!(a, half);
    assert_eq!(st, s2);
}

#[test]
fn both_engines_hold_the_inputs() {
    let inputs = vec![vec![1, 2, 70_000], vec![], (0..70_000).collect::<Vec<u32>>()];
    let mut w = Workload::new(&inputs);
    assert_eq!(w.len(), 3);
    assert!(!w.is_empty());
    let runs = |w: &Workload| -> Vec<u32> {
        w.rbs.iter().map(|rb| rb.statistics().n_run_containers).collect()
    };
    assert_eq!(runs(&w), [0, 0, 0]);
    w.optimize_roaring();
    // Two values take fewer bytes in an array; both blocks of the range are one run each.
    assert_eq!(runs(&w), [0, 0, 2]);
    for (i, v) in inputs.iter().enumerate() {
        assert_eq!(&fb_vec(&w.fbs[i]), v);
        assert_eq!(&rb_vec(&w.rbs[i]), v);
        assert_eq!(&w.fv(i).values(), v);
    }
    assert_eq!(w.views(2).len(), 2);
    assert!(Workload::new(&[]).is_empty());
}
