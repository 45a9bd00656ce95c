use frostbit::container::{as_bitmap, Data, Run};
use frostbit::format::{
    align_up, data_section_off, has_inline_magic, index_size, inline_size, read_index_entry,
    read_u16, read_u32, read_u64, run_bytes, write_index_entry, write_u16, write_u32, write_u64,
    Header, IndexEntry, CT_ARRAY, CT_BITMAP, CT_RUN, FULL_CARDINALITY,
};

#[test]
fn little_endian_words() {
    let mut b = vec![0u8; 16];
    write_u16(&mut b, 1, 0x0102);
    write_u32(&mut b, 3, 0x0304_0506);
    write_u64(&mut b, 8, 0x1112_1314_1516_1718);
    assert_eq!(
        b,
        vec![0, 2, 1, 6, 5, 4, 3, 0, 0x18, 0x17, 0x16, 0x15, 0x14, 0x13, 0x12, 0x11]
    );
    assert_eq!(read_u16(&b, 1), 0x0102);
    assert_eq!(read_u32(&b, 3), 0x0304_0506);
    assert_eq!(read_u64(&b, 8), 0x1112_1314_1516_1718);
}

#[test]
fn sizes_and_offsets() {
    assert_eq!(align_up(0, 64), 0);
    assert_eq!(align_up(1, 64), 64);
    assert_eq!(align_up(64, 64), 64);
    assert_eq!(align_up(65, 8), 72);
    assert_eq!(run_bytes(3), 14);
    assert_eq!(inline_size(0), 8);
    assert_eq!(inline_size(1), 8);
    assert_eq!(inline_size(2), 16);
    assert_eq!(index_size(5), 40);
    assert_eq!(data_section_off(1, false), 24);
    assert_eq!(data_section_off(1, true), 64);
    assert_eq!(data_section_off(6, true), 64);
    assert_eq!(data_section_off(7, true), 128);
    assert!(has_inline_magic(b"FI"));
    assert!(!has_inline_magic(b"F"));
    assert!(!has_inline_magic(b"FROZ"));
}

#[test]
fn headers_parse_as_written() {
    for h in [
        Header { has_runs: false, has_bitmap: false, num_containers: 0, cardinality: 0 },
        Header { has_runs: true, has_bitmap: false, num_containers: 3, cardinality: 77 },
        Header { has_runs: true, has_bitmap: true, num_containers: 65536, cardinality: u32::MAX as u64 },
        Header { has_runs: false, has_bitmap: true, num_containers: 65536, cardinality: FULL_CARDINALITY },
    ] {
        let mut b = vec![0xAAu8; 20];
        h.write(&mut b);
        assert_eq!(Header::parse(&b), Some(h));
        assert_eq!(&b[16..], &[0xAA; 4]);
        assert_eq!(Header::parse(&b[..15]), None);
        b[1] ^= 1;
        assert_eq!(Header::parse(&b), None);
        b[1] ^= 1;
        b[4] ^= 1;
        assert_eq!(Header::parse(&b), None);
    }
}

#[test]
fn index_entries_read_as_written() {
    let n = 4;
    let mut b = vec![0u8; 16 + 8 * n];
    let entries = [
        IndexEntry { key: 0, typ: CT_ARRAY, cardinality: 1, data_offset: 0 },
        IndexEntry { key: 9, typ: CT_BITMAP, cardinality: 65536, data_offset: 64 },
        IndexEntry { key: 10, typ: CT_RUN, cardinality: 300, data_offset: 0x3FFF_FFFF },
        IndexEntry { key: 65535, typ: CT_ARRAY, cardinality: 4096, data_offset: 12345 },
    ];
    for (i, e) in entries.iter().enumerate() {
        write_index_entry(&mut b, n, i, *e);
    }
    for (i, e) in entries.iter().enumerate() {
        assert_eq!(read_index_entry(&b, n, i), *e);
    }
}

#[test]
fn payloads() {
    let a = Data::Array(vec![3, 4, 900]);
    let mut words = Box::new([0u64; 1024]);
    words[0] = 0b11000;
    words[14] = 1 << 4;
    let b = Data::Bitmap(words);
    let r = Data::Run(vec![Run { start: 3, len: 1 }, Run { start: 900, len: 0 }]);
    for d in [a, b, r] {
        assert_eq!(d.count(), 3);
        assert!(d.contains(3) && d.contains(4) && d.contains(900));
        assert!(!d.contains(5) && !d.contains(0) && !d.contains(65535));
        let mut out = vec![7u16; 5];
        assert_eq!(d.write_sorted(&mut out), 3);
        assert_eq!(out, [3, 4, 900, 7, 7]);
        let mut all = Vec::new();
        d.for_each(&mut all);
        assert_eq!(all, vec![3, 4, 900]);
        let mut buf = vec![0u8; d.byte_len() + 2];
        d.store(&mut buf, 2);
        let again = Data::new(d.typ(), 3, &buf[2..]);
        let mut all = Vec::new();
        again.for_each(&mut all);
        assert_eq!(all, vec![3, 4, 900]);
    }
}

#[test]
fn bitmap_words_are_little_endian() {
    let mut bytes = vec![0u8; 8192];
    bytes[9] = 0x80;
    let b = as_bitmap(&bytes);
    assert_eq!(b[1], 0x8000);
    assert_eq!(b[0], 0);
}
