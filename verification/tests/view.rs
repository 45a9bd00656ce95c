use frostbit::view::FrozenBitmapView;
use frostbit::{FrozenBitmap, FrozenBitmapBuilder};
use std::collections::BTreeSet;

fn build(vals: &[u32], standard: bool) -> FrozenBitmap {
    let mut b = FrozenBitmapBuilder::new();
    b.extend_sorted(vals);
    if standard {
        b.finish_standard()
    } else {
        b.finish()
    }
}

/// Values in every form: an array, a bitmap, runs, a lone value.
fn mixed() -> Vec<u32> {
    let mut v: Vec<u32> = (0..900).map(|i| i * 70 + 5).collect();
    v.extend((0..5000).map(|i| 65536 + 13 * i + 1));
    v.extend(200_000..201_000);
    v.extend(203_000..204_000);
    v.push(900_000_000);
    v
}

#[test]
fn queries() {
    let vals = mixed();
    let set: BTreeSet<u32> = vals.iter().copied().collect();
    let bm = build(&vals, true);
    let v = bm.view();
    assert_eq!(v.len(), set.len() as u64);
    assert!(!v.is_empty());
    assert_eq!(v.min(), set.first().copied());
    assert_eq!(v.max(), set.last().copied());
    assert_eq!(v.num_containers(), 4);
    assert_eq!(v.values(), vals);
    for x in 0..300_000u32 {
        assert_eq!(v.contains(x), set.contains(&x), "{x}");
    }
    assert!(v.contains(900_000_000));
    assert!(!v.contains(900_000_001));
    assert!(!v.contains(u32::MAX));
}

#[test]
fn inline_queries() {
    let vals = [7u32, 9, 65_536, 1 << 30];
    let bm = build(&vals, false);
    let v = bm.view();
    assert!(v.is_inline());
    assert_eq!(v.inline_count(), Some(4));
    assert_eq!(v.standard_dims(), None);
    assert_eq!((v.min(), v.max()), (Some(7), Some(1 << 30)));
    assert!(v.contains(9) && !v.contains(8));
    assert_eq!(v.values(), vals.to_vec());
    let e = FrozenBitmap::empty();
    assert_eq!((e.min(), e.max(), e.len()), (None, None, 0));
    assert!(!e.contains(0));
}

#[test]
fn iterates_ascending() {
    let vals = mixed();
    for standard in [true, false] {
        let bm = build(&vals, standard);
        let mut it = bm.iter();
        let mut got = Vec::new();
        let mut left = vals.len();
        assert_eq!(it.size_hint(), (left, Some(left)));
        while let Some(x) = it.next() {
            got.push(x);
            left -= 1;
            assert_eq!(it.size_hint(), (left, Some(left)));
        }
        assert_eq!(got, vals);
        assert_eq!(it.next(), None);
        assert_eq!(it.next(), None);
    }
}

#[test]
fn equality_is_of_values() {
    let vals: Vec<u32> = (0..40).map(|i| i * 70_000).collect();
    let (a, b) = (build(&vals, true), build(&vals, false));
    assert_ne!(a.as_bytes(), b.as_bytes());
    assert!(a == b);
    assert!(a.view() == b.view());
    let c = build(&vals[..39], true);
    assert!(a != c);
    assert!(a.clone() == a);
}

#[test]
fn refuses_malformed_bytes() {
    let good = build(&mixed(), true);
    let bytes = good.as_bytes();
    assert!(FrozenBitmap::from_bytes(bytes).is_some());
    // Every truncation.
    for n in [0, 1, 2, 3, 4, 15, 16, 17, 40, bytes.len() - 1] {
        assert!(FrozenBitmap::from_bytes(&bytes[..n]).is_none(), "{n}");
    }
    let change = |at: usize, to: u8| {
        let mut b = bytes.to_vec();
        b[at] = to;
        FrozenBitmap::from_bytes(&b)
    };
    // Magic, version, number of containers, cardinality.
    assert!(change(0, b'X').is_none());
    assert!(change(4, 9).is_none());
    assert!(change(8, 5).is_none());
    assert!(change(12, bytes[12] ^ 1).is_none());
    // Keys out of order.
    assert!(change(16, 9).is_none());
    // A cardinality that is not that of the payload.
    assert!(change(24, bytes[24] ^ 1).is_none());
    // Bits of the type.
    assert!(change(16 + 16 + 3, bytes[16 + 16 + 3] | 0xC0).is_none());
    // Unordered array values.
    let data = 64;
    assert!(change(data + 1, 0xFF).is_none());
}

#[test]
fn refuses_payloads_off_their_boundary() {
    // One run, a byte past its boundary of two.
    let runs = build(&(10..1000).collect::<Vec<u32>>(), true);
    let bytes = runs.as_bytes();
    assert_eq!((bytes.len(), &bytes[20..24]), (30, &[0, 0, 0, 2 << 6][..]));
    let mut b = bytes[..24].to_vec();
    b[20] = 1;
    b.push(0);
    b.extend_from_slice(&bytes[24..]);
    assert!(FrozenBitmap::from_bytes(&b).is_none());
    // A byte further it is back on one.
    b[20] = 2;
    b.insert(24, 0);
    assert_eq!(FrozenBitmap::from_bytes(&b).unwrap().values(), runs.values());
    // A bitmap eight bytes past its boundary of sixty-four.
    let dense = build(&(0..6000).map(|i| i * 3).collect::<Vec<u32>>(), true);
    let bytes = dense.as_bytes();
    assert_eq!((bytes.len(), &bytes[20..24]), (64 + 8192, &[0, 0, 0, 1 << 6][..]));
    for (shift, ok) in [(8, false), (32, false), (64, true)] {
        let mut b = bytes[..64].to_vec();
        b[20] = shift;
        b.extend_from_slice(&vec![0; shift as usize]);
        b.extend_from_slice(&bytes[64..]);
        assert_eq!(FrozenBitmap::from_bytes(&b).is_some(), ok);
    }
}

#[test]
fn refuses_malformed_inline() {
    let good = build(&[1, 70_000, 1 << 31], false);
    assert!(good.view().is_inline());
    let bytes = good.as_bytes();
    assert!(FrozenBitmap::from_bytes(&bytes[..bytes.len() - 1]).is_none());
    assert!(FrozenBitmap::from_bytes(&bytes[..3]).is_none());
    let mut b = bytes.to_vec();
    b[2] = 200;
    assert!(FrozenBitmap::from_bytes(&b).is_none());
    let mut b = bytes.to_vec();
    b[7] = 0xFF;
    assert!(FrozenBitmap::from_bytes(&b).is_none());
}

#[test]
fn base_alignment() {
    let st = build(&[1, 2, 3, 70_000], true);
    for addr in 0..16usize {
        let ok = FrozenBitmapView::from_bytes_at(st.as_bytes(), addr).is_some();
        assert_eq!(ok, addr % 8 == 0);
    }
    let inline = build(&[1, 70_000, 1 << 30], false);
    for addr in 0..16usize {
        let ok = FrozenBitmapView::from_bytes_at(inline.as_bytes(), addr).is_some();
        assert_eq!(ok, addr % 4 == 0);
    }
    assert!(FrozenBitmapView::from_bytes_at(FrozenBitmap::empty().as_bytes(), 1).is_some());
    // An owned buffer is aligned whatever the source was.
    let mut shifted = vec![0u8];
    shifted.extend_from_slice(st.as_bytes());
    assert!(FrozenBitmap::from_bytes(&shifted[1..]).unwrap() == st);
    assert!(FrozenBitmapView::from_bytes(st.as_bytes()).is_some());
}

#[test]
fn trusted_views() {
    let bm = build(&mixed(), true);
    let v = FrozenBitmapView::from_bytes_trusted(bm.as_bytes());
    assert_eq!(v.as_bytes(), bm.as_bytes());
    assert_eq!(v.values(), mixed());
    assert_eq!(v.into_iter().next(), Some(5));
}
