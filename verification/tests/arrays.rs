use frostbit::arrays::{array_contains, array_diff, array_intersect, array_union};
use std::collections::BTreeSet;

fn splitmix(s: &mut u64) -> u64 {
    *s = s.wrapping_add(0x9E37_79B9_7F4A_7C15);
    let mut z = *s;
    z = (z ^ (z >> 30)).wrapping_mul(0xBF58_476D_1CE4_E5B9);
    z = (z ^ (z >> 27)).wrapping_mul(0x94D0_49BB_1331_11EB);
    z ^ (z >> 31)
}

fn gen(s: &mut u64, n: usize, spread: u16) -> Vec<u16> {
    let mut set = BTreeSet::new();
    while set.len() < n {
        set.insert((splitmix(s) % spread as u64) as u16);
    }
    set.into_iter().collect()
}

fn naive_union(a: &[u16], b: &[u16]) -> Vec<u16> {
    let mut s: BTreeSet<u16> = a.iter().copied().collect();
    s.extend(b.iter().copied());
    s.into_iter().collect()
}

fn naive_diff(a: &[u16], b: &[u16]) -> Vec<u16> {
    a.iter().copied().filter(|x| b.binary_search(x).is_err()).collect()
}

fn naive_common(a: &[u16], b: &[u16]) -> Vec<u16> {
    a.iter().copied().filter(|x| b.binary_search(x).is_ok()).collect()
}

/// `array_union` equals a set union: random sizes and overlap exercise the block merge,
/// the boundary between blocks and the scalar tail.
#[test]
fn union_matches_naive() {
    let mut s = 0x0F55_1234_u64;
    for _ in 0..4000 {
        let spread = 40 + (splitmix(&mut s) % 6000) as u16;
        let cap = (spread as usize - 1).min(500);
        let n = 1 + splitmix(&mut s) as usize % cap;
        let m = 1 + splitmix(&mut s) as usize % cap;
        let a = gen(&mut s, n, spread);
        let b = gen(&mut s, m, spread);
        let mut out = vec![0u16; a.len() + b.len()];
        let k = array_union(&a, &b, &mut out);
        assert_eq!(&out[..k], naive_union(&a, &b).as_slice(), "\na={a:?}\nb={b:?}");
    }
}

/// `array_diff` equals a naive filter, whichever side runs out first.
#[test]
fn diff_matches_naive() {
    let mut s = 0xD1FF_0FF5_u64;
    for _ in 0..4000 {
        let spread = 40 + (splitmix(&mut s) % 6000) as u16;
        let cap = (spread as usize - 1).min(500);
        let n = 1 + splitmix(&mut s) as usize % cap;
        let m = 1 + splitmix(&mut s) as usize % cap;
        let a = gen(&mut s, n, spread);
        let b = gen(&mut s, m, spread);
        let mut out = vec![0u16; a.len() + 1];
        let k = array_diff(&a, &b, &mut out);
        assert_eq!(&out[..k], naive_diff(&a, &b).as_slice(), "\na={a:?}\nb={b:?}");
    }
}

/// `array_intersect` equals a naive filter at balanced and lopsided sizes.
#[test]
fn intersect_matches_naive() {
    let mut s = 0xA11D_0FF5_u64;
    for round in 0..2000 {
        let spread = 40 + (splitmix(&mut s) % 6000) as u16;
        let cap = (spread as usize - 1).min(500);
        let n = 1 + splitmix(&mut s) as usize % (if round % 2 == 0 { cap } else { 8 });
        let m = 1 + splitmix(&mut s) as usize % cap;
        let a = gen(&mut s, n, spread);
        let b = gen(&mut s, m, spread);
        let mut out = vec![0u16; a.len().min(b.len()) + 8];
        let k = array_intersect(&a, &b, &mut out);
        assert_eq!(&out[..k], naive_common(&a, &b).as_slice(), "\na={a:?}\nb={b:?}");
        let k = array_intersect(&b, &a, &mut out);
        assert_eq!(&out[..k], naive_common(&a, &b).as_slice());
    }
}

#[test]
fn merges_of_empty_arrays() {
    let mut out = vec![0u16; 4];
    assert_eq!(array_intersect(&[], &[1, 2], &mut out), 0);
    // What lies past the result stays.
    let mut rest = vec![7u16, 7, 8, 9];
    assert_eq!(array_intersect(&[], &[1, 2], &mut rest), 0);
    assert_eq!(array_intersect(&[1, 5], &[2, 5], &mut rest), 1);
    assert_eq!(rest, [5, 7, 8, 9]);
    assert_eq!(array_union(&[], &[1, 2], &mut out), 2);
    assert_eq!(&out[..2], &[1, 2]);
    assert_eq!(array_diff(&[1, 2], &[], &mut out), 2);
    assert_eq!(array_diff(&[], &[1, 2], &mut out), 0);
    assert!(array_contains(&[0, 7, 65535], 65535));
    assert!(!array_contains(&[0, 7, 65535], 8));
}
