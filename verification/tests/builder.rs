use frostbit::container::Run;
use frostbit::format::{CT_ARRAY, CT_BITMAP, CT_RUN};
use frostbit::{FrozenBitmap, FrozenBitmapBuilder, FrozenBitmapView};

fn build(vals: &[u32]) -> FrozenBitmap {
    let mut b = FrozenBitmapBuilder::new();
    b.extend_sorted(vals);
    b.finish()
}

fn build_standard(vals: &[u32]) -> FrozenBitmap {
    let mut b = FrozenBitmapBuilder::new();
    b.extend_sorted(vals);
    b.finish_standard()
}

fn word(b: &[u8], o: usize) -> u32 {
    u32::from_le_bytes([b[o], b[o + 1], b[o + 2], b[o + 3]])
}

fn half(b: &[u8], o: usize) -> u16 {
    u16::from_le_bytes([b[o], b[o + 1]])
}

/// Type and offset of container `i` of a standard bitmap.
fn type_and_offset(b: &[u8], i: usize) -> (u8, u32) {
    let n = word(b, 8) as usize;
    let w = word(b, 16 + 4 * n + 4 * i);
    ((w >> 30) as u8, w & 0x3FFF_FFFF)
}

#[test]
fn first_bitmap() {
    let bm = build(&[10, 20, 70_000]);
    let v = bm.view();
    assert!(v.contains(20));
    assert!(!v.contains(21));
    assert_eq!(v.len(), 3);
    assert_eq!(bm.values(), vec![10, 20, 70_000]);
}

#[test]
fn pushes_and_lists() {
    let mut b = FrozenBitmapBuilder::new();
    b.push(3);
    b.extend_sorted(&[70_000, 1 << 20]);
    let bm = b.finish();
    assert_eq!(bm.values(), vec![3, 70_000, 1 << 20]);
    assert_eq!(bm.min(), Some(3));
    assert_eq!(bm.max(), Some(1 << 20));
}

#[test]
fn nothing_pushed() {
    let bm = FrozenBitmapBuilder::default().finish();
    assert!(bm.is_empty());
    assert_eq!(bm.as_bytes(), &[b'F', b'I', 0, 0, 0, 0, 0, 0]);
    assert!(bm == FrozenBitmap::empty());
    let st = FrozenBitmapBuilder::new().finish_standard();
    assert!(st.is_empty());
    assert_eq!(st.byte_len(), 16);
    assert!(st == bm);
}

#[test]
fn inline_bytes() {
    let bm = build(&[1, 0x0102_0304]);
    assert!(bm.view().is_inline());
    assert_eq!(
        bm.as_bytes(),
        &[b'F', b'I', 2, 0, 1, 0, 0, 0, 4, 3, 2, 1, 0, 0, 0, 0]
    );
    assert_eq!(bm.view().num_containers(), 0);
}

#[test]
fn inline_only_where_smaller() {
    // One container of 10 scattered values: 16 + 8 + 20 bytes as an array, 48 inline.
    let vals: Vec<u32> = (0..10).map(|i| i * 1000).collect();
    let bm = build(&vals);
    assert!(!bm.view().is_inline());
    assert_eq!(bm.byte_len(), 44);
    // Ten containers of one value each: 48 inline, more in the standard format.
    let vals: Vec<u32> = (0..10).map(|i| i << 16).collect();
    let bm = build(&vals);
    assert!(bm.view().is_inline());
    assert_eq!(bm.byte_len(), 48);
    assert_eq!(build_standard(&vals).byte_len(), 16 + 80 + 20);
}

#[test]
fn header_and_index() {
    // An array, a bitmap and runs.
    let mut vals: Vec<u32> = (0..100).map(|i| i * 7).collect();
    vals.extend((0..5000).map(|i| 65536 + 2 * i));
    vals.extend(3 * 65536..4 * 65536);
    let bm = build(&vals);
    let b = bm.as_bytes();
    assert_eq!(&b[0..4], &word(b, 0).to_le_bytes());
    assert_eq!(half(b, 4), 3);
    assert_eq!(half(b, 6), 0b101);
    assert_eq!(word(b, 8), 3);
    assert_eq!(word(b, 12) as usize, vals.len());
    // Keys, then cardinalities less one.
    assert_eq!((half(b, 16), half(b, 18), half(b, 20)), (0, 1, 3));
    assert_eq!((half(b, 22), half(b, 24), half(b, 26)), (99, 4999, 65535));
    let (t0, o0) = type_and_offset(b, 0);
    let (t1, o1) = type_and_offset(b, 1);
    let (t2, o2) = type_and_offset(b, 2);
    assert_eq!((t0, t1, t2), (CT_ARRAY, CT_BITMAP, CT_RUN));
    // The data section starts 64-aligned, and so does the bitmap in it.
    assert_eq!((o0, o1, o2), (0, 256, 256 + 8192));
    assert_eq!(bm.byte_len(), 64 + 256 + 8192 + 6);
    // One run of everything: count, start, length less one.
    assert_eq!(&b[64 + 256 + 8192..], &[1, 0, 0, 0, 255, 255]);
    // Zeros between the payloads.
    assert!(b[64 + 200..64 + 256].iter().all(|&x| x == 0));
    assert!(b[40..64].iter().all(|&x| x == 0));
}

#[test]
fn smallest_form_of_each_block() {
    // Ties go to runs: one pair of neighbours is 6 bytes as a run, 4 as an array.
    let (t, _) = type_and_offset(build_standard(&[5, 6]).as_bytes(), 0);
    assert_eq!(t, CT_ARRAY);
    // Three neighbours are 6 either way.
    let (t, _) = type_and_offset(build_standard(&[5, 6, 7]).as_bytes(), 0);
    assert_eq!(t, CT_RUN);
    // 4096 scattered values are still an array, 4097 a bitmap.
    let v: Vec<u32> = (0..4096).map(|i| 2 * i).collect();
    assert_eq!(type_and_offset(build_standard(&v).as_bytes(), 0).0, CT_ARRAY);
    let v: Vec<u32> = (0..4097).map(|i| 2 * i).collect();
    assert_eq!(type_and_offset(build_standard(&v).as_bytes(), 0).0, CT_BITMAP);
    // 2047 runs are 8190 bytes, 2048 would be 8194.
    let v: Vec<u32> = (0..2047u32).flat_map(|r| (0..5).map(move |j| r * 32 + j)).collect();
    assert_eq!(type_and_offset(build_standard(&v).as_bytes(), 0).0, CT_RUN);
    let v: Vec<u32> = (0..2048u32).flat_map(|r| (0..5).map(move |j| r * 32 + j)).collect();
    assert_eq!(type_and_offset(build_standard(&v).as_bytes(), 0).0, CT_BITMAP);
}

#[test]
fn finished_is_no_larger_than_either_encoding() {
    for step in [1u32, 3, 700, 65_536] {
        let vals: Vec<u32> = (0..60).map(|i| i * step).collect();
        let bm = build(&vals);
        let inline = (4 + 4 * vals.len() + 7) / 8 * 8;
        assert!(bm.byte_len() <= inline);
        assert!(bm.byte_len() <= build_standard(&vals).byte_len());
    }
}

#[test]
fn bytes_depend_on_the_values_alone() {
    let vals: Vec<u32> = (0..20_000u32).map(|i| i * 37 % 1_000_003).collect();
    let mut vals = vals;
    vals.sort_unstable();
    vals.dedup();
    let whole = build(&vals);
    let mut b = FrozenBitmapBuilder::new();
    for c in vals.chunks(777) {
        b.extend_sorted(c);
    }
    assert_eq!(b.finish().as_bytes(), whole.as_bytes());
    let mut b = FrozenBitmapBuilder::new();
    for &v in &vals {
        b.push(v);
    }
    assert_eq!(b.finish().as_bytes(), whole.as_bytes());
    // And are the same again after a round trip through another representation.
    assert_eq!(FrozenBitmap::from_roaring(&whole.to_roaring()).as_bytes(), whole.as_bytes());
}

#[test]
fn reads_back_what_was_written() {
    let mut vals: Vec<u32> = (0..3000).map(|i| i * 11).collect();
    vals.extend(200_000..270_000);
    vals.extend((0..6000).map(|i| 1_000_000 + 3 * i));
    vals.push(u32::MAX);
    for bm in [build(&vals), build_standard(&vals)] {
        let again = FrozenBitmap::from_bytes(bm.as_bytes()).unwrap();
        assert_eq!(again.values(), vals);
        assert_eq!(again.as_bytes(), bm.as_bytes());
        let seen = FrozenBitmapView::from_bytes(bm.as_bytes()).unwrap();
        assert_eq!(seen.values(), vals);
        let trusted = FrozenBitmap::from_bytes_trusted(bm.as_bytes());
        assert_eq!(trusted.len(), vals.len() as u64);
    }
}

#[test]
fn last_key_and_full_block() {
    let vals: Vec<u32> = (0xFFFF_0000u32..=0xFFFF_FFFF).collect();
    let bm = build(&vals);
    assert_eq!(bm.len(), 65536);
    assert_eq!(bm.min(), Some(0xFFFF_0000));
    assert_eq!(bm.max(), Some(u32::MAX));
    assert_eq!(bm.byte_len(), 16 + 8 + 6);
    let r = Run { start: 0, len: 65535 };
    assert_eq!(r.end(), 65535);
}
