use frostbit::{FrozenBitmap, FrozenBitmapBuilder};
use roaring::RoaringBitmap;

fn values() -> Vec<u32> {
    let mut v: Vec<u32> = (0..2000).map(|i| i * 31).collect();
    v.extend(100_000..180_000);
    v.extend((0..9000).map(|i| 500_000 + i * 7));
    v.push(u32::MAX - 1);
    v.push(u32::MAX);
    v
}

#[test]
fn round_trips_through_roaring() {
    let vals = values();
    let mut b = FrozenBitmapBuilder::new();
    b.extend_sorted(&vals);
    let fb = b.finish();
    let rb = fb.to_roaring();
    assert_eq!(rb.iter().collect::<Vec<u32>>(), vals);
    let back = FrozenBitmap::from_roaring(&rb);
    assert!(back == fb);
    assert_eq!(back.as_bytes(), fb.as_bytes());
    assert!(fb.view().to_roaring() == rb);
}

#[test]
fn from_conversions() {
    let rb: RoaringBitmap = values().into_iter().collect();
    let fb = FrozenBitmap::from(&rb);
    assert_eq!(fb.values(), values());
    let again = RoaringBitmap::from(&fb);
    assert!(again == rb);
    let none = FrozenBitmap::from(&RoaringBitmap::new());
    assert!(none.is_empty());
    assert!(RoaringBitmap::from(&none).is_empty());
}

#[test]
fn run_optimized_roaring() {
    let mut rb: RoaringBitmap = values().into_iter().collect();
    rb.optimize();
    let fb = FrozenBitmap::from_roaring(&rb);
    assert_eq!(fb.values(), values());
    assert_eq!(fb.len(), rb.len());
}
