use frostbit::difference::{diff_compact_in, diff_in};
use frostbit::intersect::intersect_in;
use frostbit::memory::{
    borrow_buf, clone_in, finish_in, give_buf, parse_in, prewarm as memory_prewarm, recycle,
    result_buf, Buffers,
};
use frostbit::pool::{
    clear, config, configure, prewarm, stats, OnOverflow, PoolConfig, PoolStats, Pools, Taken,
};
use frostbit::union::{union_compact_in, union_in};
use frostbit::{BitmapExpr, FrozenBitmap, FrozenBitmapBuilder};

fn fresh(t: Option<Taken<Vec<u8>>>) -> bool {
    matches!(t, Some(Taken::Fresh { .. }))
}

#[test]
fn buffers_circulate() {
    let mut p: Pools<Vec<u8>> = Pools::new();
    assert!(fresh(p.take_arena()));
    assert_eq!(stats(&p).live, 1);
    p.put_arena(vec![7u8; 10], 10);
    let s = stats(&p);
    assert_eq!((s.live, s.retained, s.retained_bytes, s.overflows), (0, 1, 10, 0));
    match p.take_arena() {
        Some(Taken::Idle(b)) => assert_eq!(b, vec![7u8; 10]),
        _ => panic!("the buffer was not reused"),
    }
    assert_eq!(stats(&p).retained, 0);
}

#[test]
fn retained_memory_stays_within_the_budget() {
    let mut p: Pools<Vec<u8>> = Pools::new();
    configure(&mut p, PoolConfig::new().buffers(2));
    for _ in 0..5 {
        assert!(fresh(p.take_arena()));
    }
    assert_eq!(stats(&p).overflows, 3);
    for i in 0..5 {
        p.put_arena(vec![0; i], i);
    }
    let s = stats(&p);
    assert_eq!((s.live, s.retained, s.retained_bytes), (0, 2, 1));
    clear(&mut p);
    assert_eq!(stats(&p).retained, 0);
    assert_eq!(stats(&p).overflows, 3);
    configure(&mut p, PoolConfig::new());
    assert_eq!(stats(&p).overflows, 0);
}

#[test]
fn failing_on_overflow() {
    let mut p: Pools<Vec<u8>> = Pools::new();
    configure(&mut p, PoolConfig::new().buffers(1).on_overflow(OnOverflow::Fail));
    assert!(fresh(p.take_arena()));
    assert!(p.take_arena().is_none());
    assert_eq!(stats(&p).overflows, 1);
    // Results are a cache: they never overflow.
    for _ in 0..4 {
        assert!(p.take_result().is_none());
    }
    assert_eq!(stats(&p).overflows, 1);
    assert_eq!(stats(&p).live, 6);
}

#[test]
fn prewarming() {
    let mut p: Pools<Vec<u8>> = Pools::new();
    configure(&mut p, PoolConfig::new().buffer_sizes(vec![40, 10, 10]));
    assert_eq!(config(&p).prewarm_bytes(), 120);
    prewarm(&mut p, |n| vec![0u8; n], |n| vec![1u8; n]);
    let s = stats(&p);
    assert_eq!((s.live, s.retained, s.retained_bytes), (0, 6, 120));
    // A second time changes nothing.
    prewarm(&mut p, |n| vec![0u8; n], |n| vec![1u8; n]);
    assert_eq!(stats(&p).retained, 6);
    assert_eq!(p.take_result().map(|b| b[0]), Some(1));
}

#[test]
fn configurations() {
    let c = PoolConfig::new().buffers(4).buffer_bytes(1 << 20);
    assert_eq!(c.prewarm_bytes(), 8 << 20);
    assert_eq!(c.buffers(2).prewarm_bytes(), 4 << 20);
    assert_eq!(PoolConfig::default().prewarm_bytes(), 0);
    assert_eq!(OnOverflow::default(), OnOverflow::Allocate);
    let c = PoolConfig::new().buffers(3).buffer_bytes(100);
    assert_eq!(c.clone(), c);
    assert_ne!(c, PoolConfig::new());
    let p: Pools<Vec<u8>> = Pools::new();
    assert_eq!(stats(&p), PoolStats::default());
}

fn built(vals: &[u32]) -> FrozenBitmap {
    let mut b = FrozenBitmapBuilder::new();
    b.extend_sorted(vals);
    b.finish()
}

#[test]
fn folds_reuse_their_memory() {
    let (a, b) = (built(&[1, 2, 3, 70_000]), built(&[2, 3, 4]));
    let mut p = Buffers::new();
    configure(&mut p, PoolConfig::new().buffers(1).on_overflow(OnOverflow::Fail));
    for _ in 0..3 {
        let r = intersect_in(&[a.view(), b.view()], &mut p).unwrap();
        assert_eq!(r.values(), [2, 3]);
        let s = stats(&p);
        assert_eq!((s.live, s.retained, s.overflows), (1, 1, 0));
        recycle(&mut p, r);
        assert_eq!(stats(&p).live, 0);
        let r = union_compact_in(&[a.view(), b.view()], &mut p).unwrap();
        assert_eq!(r.values(), [1, 2, 3, 4, 70_000]);
        recycle(&mut p, r);
        let r = diff_in(&[a.view(), b.view()], &mut p).unwrap();
        assert_eq!(r.values(), [1, 70_000]);
        recycle(&mut p, r);
    }
    let s = stats(&p);
    assert_eq!((s.live, s.retained, s.overflows), (0, 2, 0));
    assert!(s.retained_bytes > 0);
}

#[test]
fn a_budget_of_none_refuses_every_fold() {
    let a = built(&[5, 6]);
    let mut p = Buffers::new();
    configure(&mut p, PoolConfig::new().buffers(0).on_overflow(OnOverflow::Fail));
    assert!(union_in(&[a.view(), a.view()], &mut p).is_none());
    assert_eq!((stats(&p).live, stats(&p).overflows), (1, 1));
    // A leaf needs no working memory.
    assert!(BitmapExpr::leaf(a.view()).materialize_in(&mut p).unwrap() == a);
    configure(&mut p, PoolConfig::new().buffers(0));
    let r = diff_compact_in(&[a.view()], &mut p).unwrap();
    assert_eq!((r.values(), stats(&p).retained, stats(&p).overflows), (vec![5, 6], 0, 1));
}

#[test]
fn trees_need_a_buffer_for_every_operand() {
    let leaf = |v: &[u32]| BitmapExpr::from(built(v));
    // Both differences are on the stack when the union folds them.
    let tree = || {
        BitmapExpr::or(vec![
            BitmapExpr::difference(leaf(&[1, 2, 3]), leaf(&[2])),
            BitmapExpr::difference(leaf(&[7, 8, 9]), leaf(&[8])),
        ])
    };
    let e = tree();
    assert_eq!(e.max_depth(), 3);
    assert_eq!(leaf(&[1]).max_depth(), 0);
    let mut p = Buffers::new();
    configure(&mut p, PoolConfig::new().buffers(4).on_overflow(OnOverflow::Fail));
    let r = e.materialize_in(&mut p).unwrap();
    assert_eq!(r.values(), [1, 3, 7, 9]);
    assert_eq!((stats(&p).live, stats(&p).overflows), (1, 0));
    recycle(&mut p, r);
    assert_eq!(stats(&p).live, 0);
    clear(&mut p);
    configure(&mut p, PoolConfig::new().buffers(2).on_overflow(OnOverflow::Fail));
    assert!(e.materialize_in(&mut p).is_none());
    assert_eq!((stats(&p).live, stats(&p).overflows), (1, 1));
    let mut p = Buffers::new();
    configure(&mut p, PoolConfig::new().buffers(2));
    assert_eq!(e.materialize_in(&mut p).unwrap().values(), [1, 3, 7, 9]);
    assert_eq!((stats(&p).live, stats(&p).retained, stats(&p).overflows), (1, 2, 1));
    // Without a budget every fold exceeds it, and nothing is kept.
    let mut p = Buffers::new();
    configure(&mut p, PoolConfig::new().buffers(0));
    assert_eq!(e.clone().materialize_in(&mut p).unwrap().values(), [1, 3, 7, 9]);
    assert_eq!((stats(&p).live, stats(&p).retained, stats(&p).overflows), (1, 0, 3));
}

#[test]
fn an_empty_operand_gives_its_memory_back() {
    let leaf = |v: &[u32]| BitmapExpr::from(built(v));
    let e = BitmapExpr::and(vec![
        BitmapExpr::or(vec![leaf(&[1, 2]), leaf(&[3])]),
        BitmapExpr::difference(leaf(&[4]), leaf(&[4])),
        BitmapExpr::or(vec![leaf(&[1]), leaf(&[70_000])]),
    ]);
    let mut p = Buffers::new();
    let r = e.materialize_in(&mut p).unwrap();
    assert!(r.is_empty());
    assert_eq!((stats(&p).live, stats(&p).overflows), (1, 0));
    recycle(&mut p, r);
    assert_eq!(stats(&p).live, 0);
}

#[test]
fn buffers_are_allocated_ahead() {
    let mut p = Buffers::new();
    configure(&mut p, PoolConfig::new().buffer_sizes(vec![4096, 64]));
    memory_prewarm(&mut p);
    let s = stats(&p);
    assert_eq!((s.live, s.retained), (0, 4));
    assert_eq!(s.retained_bytes, 2 * (4096 + 64));
}

#[test]
fn depth_of_a_tree() {
    let leaf = || BitmapExpr::from(built(&[1, 2]));
    let pair = || BitmapExpr::or(vec![leaf(), leaf()]);
    assert_eq!(BitmapExpr::and(vec![]).max_depth(), 1);
    assert_eq!(pair().max_depth(), 2);
    // An OR in an OR is three operands of one fold, in an AND it is one.
    assert_eq!(BitmapExpr::or(vec![pair(), leaf()]).max_depth(), 3);
    assert_eq!(BitmapExpr::and(vec![pair(), leaf()]).max_depth(), 2);
    assert_eq!(BitmapExpr::and(vec![leaf(), pair()]).max_depth(), 3);
    assert_eq!(BitmapExpr::or(vec![leaf(), pair(), pair()]).clone().max_depth(), 5);
    assert_eq!(BitmapExpr::difference(pair(), leaf()).max_depth(), 2);
    assert_eq!(BitmapExpr::difference(leaf(), pair()).max_depth(), 3);
}

#[test]
fn bitmaps_made_in_result_buffers() {
    let vals = [3, 4, 5, 100_000];
    let plain = built(&vals);
    let mut p = Buffers::new();
    let mut builder = FrozenBitmapBuilder::new();
    builder.extend_sorted(&vals);
    let a = finish_in(&mut p, builder);
    let b = clone_in(&mut p, &a);
    let c = parse_in(&mut p, plain.as_bytes()).unwrap();
    assert!(a == plain && b == plain && c == plain);
    // Every one of them is out until it comes back.
    assert_eq!((stats(&p).live, stats(&p).retained), (3, 0));
    // Malformed bytes take nothing.
    assert!(parse_in(&mut p, &plain.as_bytes()[1..]).is_none());
    assert_eq!(stats(&p).live, 3);
    for x in [a, b, c] {
        recycle(&mut p, x);
    }
    assert_eq!((stats(&p).live, stats(&p).retained, stats(&p).overflows), (0, 3, 0));
    let bytes = stats(&p).retained_bytes;
    assert!(bytes >= 3 * plain.byte_len());
    let d = clone_in(&mut p, &plain);
    assert_eq!((stats(&p).live, stats(&p).retained), (1, 2));
    assert!(stats(&p).retained_bytes < bytes);
    recycle(&mut p, d);
    assert_eq!(stats(&p).retained_bytes, bytes);
}

#[test]
fn the_last_buffer_back_is_the_first_out() {
    let mut p = Buffers::new();
    configure(&mut p, PoolConfig::new().buffer_sizes(vec![64, 4096]));
    memory_prewarm(&mut p);
    let idle = |p: &Buffers| stats(p).retained_bytes;
    assert_eq!(idle(&p), 2 * (64 + 4096));
    let first = borrow_buf(&mut p).unwrap();
    assert_eq!(idle(&p), 64 + 64 + 4096);
    let _second = borrow_buf(&mut p).unwrap();
    assert_eq!(idle(&p), 64 + 4096);
    give_buf(&mut p, first);
    assert_eq!(idle(&p), 4096 + 64 + 4096);
    let _first = borrow_buf(&mut p).unwrap();
    assert_eq!(idle(&p), 64 + 4096);
    let _third = result_buf(&mut p);
    assert_eq!(idle(&p), 64);
    let _fourth = result_buf(&mut p);
    assert_eq!((idle(&p), stats(&p).live), (0, 4));
    // None is idle: the next is new, and without room.
    let fifth = result_buf(&mut p);
    give_buf(&mut p, fifth);
    assert_eq!((idle(&p), stats(&p).retained), (0, 1));
}

#[test]
fn storage_results_keep_their_buffers() {
    let (a, b) = (built(&[1, 2, 3, 70_000]), built(&[2, 3, 4]));
    let mut p = Buffers::new();
    configure(&mut p, PoolConfig::new().buffers(1).buffer_bytes(64 << 10));
    memory_prewarm(&mut p);
    for _ in 0..3 {
        let r = union_compact_in(&[a.view(), b.view()], &mut p).unwrap();
        assert_eq!(stats(&p).retained_bytes, 64 << 10);
        recycle(&mut p, r);
        assert_eq!((stats(&p).retained, stats(&p).retained_bytes), (2, 128 << 10));
    }
}
