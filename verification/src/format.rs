//! Wire format: constants and byte-level primitives, little-endian.
//!
//! Standard format (`FROZ`): a 16-byte header, then a structure-of-arrays
//! container index, then the data section.
//!
//! ```text
//!   0  u32  MAGIC          ("FROZ")
//!   4  u16  VERSION        (3)
//!   6  u16  FLAGS          (FLAG_HAS_RUNS | FLAG_FULL | FLAG_HAS_BITMAP)
//!   8  u32  NUM_CONTAINERS
//!  12  u32  CARDINALITY    (FLAG_FULL: the true value is 2^32)
//!  16       index (keys, cards - 1, type and offset) + data section
//! ```
use vstd::prelude::*;

verus! {

/// Standard-format magic: "FROZ" read as a big-endian number.
pub const MAGIC: u32 = 0x46524F5A;

/// Version written into the header.
pub const VERSION: u16 = 3;

pub const H_MAGIC: usize = 0;

pub const H_VERSION: usize = 4;

pub const H_FLAGS: usize = 6;

pub const H_NUM_CONTAINERS: usize = 8;

pub const H_CARDINALITY: usize = 12;

pub const HEADER_SIZE: usize = 16;

/// At least one container is run-encoded.
pub const FLAG_HAS_RUNS: u16 = 1;

/// The bitmap holds every value; the `u32` field cannot store `2^32`.
pub const FLAG_FULL: u16 = 2;

/// At least one container is a bitmap; the data section is then 64-aligned.
pub const FLAG_HAS_BITMAP: u16 = 4;

pub const CT_ARRAY: u8 = 0;

pub const CT_BITMAP: u8 = 1;

pub const CT_RUN: u8 = 2;

/// Not a stored type: marks an inline-format key group, whose payload is
/// packed `u32`s.
pub const CT_INLINE: u8 = 3;

/// A bitmap container covers a 2^16 key space as 1024 words.
pub const BITMAP_WORDS: usize = 1024;

/// Bitmap payload size in bytes.
pub const BITMAP_BYTES: usize = 8192;

/// An array is no larger than a bitmap up to this cardinality.
pub const ARRAY_MAX_SIZE: usize = 4096;

/// Most runs that fit a run payload before it is larger than a bitmap.
pub const MAX_RUNS: usize = 2047;

/// Buffer and bitmap-container alignment.
pub const BUF_ALIGN: usize = 64;

/// Baseline section alignment.
pub const WORD_ALIGN: usize = 8;

// --- little-endian words -----------------------------------------------------

/// The `u16` stored at offset `o`.
pub open spec fn u16_at(b: Seq<u8>, o: int) -> u16 {
    (b[o] + 256 * b[o + 1]) as u16
}

/// The `u32` stored at offset `o`.
pub open spec fn u32_at(b: Seq<u8>, o: int) -> u32 {
    (b[o] + 256 * b[o + 1] + 65536 * b[o + 2] + 16777216 * b[o + 3]) as u32
}

/// The `u64` stored at offset `o`.
pub open spec fn u64_at(b: Seq<u8>, o: int) -> u64 {
    (u32_at(b, o) + 0x1_0000_0000 * u32_at(b, o + 4)) as u64
}

/// `b` and `c` agree outside `[from, to)`.
pub open spec fn same_outside(b: Seq<u8>, c: Seq<u8>, from: int, to: int) -> bool {
    &&& b.len() == c.len()
    &&& forall|k: int| 0 <= k < b.len() && !(from <= k < to) ==> b[k] == c[k]
}

pub fn read_u16(bytes: &[u8], off: usize) -> (r: u16)
    requires
        off + 2 <= bytes.len(),
    ensures
        r == u16_at(bytes@, off as int),
{
    bytes[off] as u16 + 256 * (bytes[off + 1] as u16)
}

pub fn read_u32(bytes: &[u8], off: usize) -> (r: u32)
    requires
        off + 4 <= bytes.len(),
    ensures
        r == u32_at(bytes@, off as int),
{
    bytes[off] as u32 + 256 * (bytes[off + 1] as u32) + 65536 * (bytes[off + 2] as u32)
        + 16777216 * (bytes[off + 3] as u32)
}

pub fn read_u64(bytes: &[u8], off: usize) -> (r: u64)
    requires
        off + 8 <= bytes.len(),
    ensures
        r == u64_at(bytes@, off as int),
{
    read_u32(bytes, off) as u64 + 0x1_0000_0000 * (read_u32(bytes, off + 4) as u64)
}

pub fn write_u16(bytes: &mut [u8], off: usize, val: u16)
    requires
        off + 2 <= old(bytes).len(),
    ensures
        u16_at(final(bytes)@, off as int) == val,
        same_outside(final(bytes)@, old(bytes)@, off as int, off + 2),
{
    bytes[off] = (val % 256) as u8;
    bytes[off + 1] = (val / 256) as u8;
}

pub fn write_u32(bytes: &mut [u8], off: usize, val: u32)
    requires
        off + 4 <= old(bytes).len(),
    ensures
        u32_at(final(bytes)@, off as int) == val,
        same_outside(final(bytes)@, old(bytes)@, off as int, off + 4),
{
    bytes[off] = (val % 256) as u8;
    bytes[off + 1] = (val / 256 % 256) as u8;
    bytes[off + 2] = (val / 65536 % 256) as u8;
    bytes[off + 3] = (val / 16777216) as u8;
}

pub fn write_u64(bytes: &mut [u8], off: usize, val: u64)
    requires
        off + 8 <= old(bytes).len(),
    ensures
        u64_at(final(bytes)@, off as int) == val,
        same_outside(final(bytes)@, old(bytes)@, off as int, off + 8),
{
    write_u32(bytes, off, (val % 0x1_0000_0000) as u32);
    write_u32(bytes, off + 4, (val / 0x1_0000_0000) as u32);
}

// --- sizes and offsets -------------------------------------------------------

/// Stored size of a run container: a `u16` count then `nr` `(start, len)` pairs.
pub fn run_bytes(nr: usize) -> (r: usize)
    requires
        2 + nr * 4 <= usize::MAX,
    ensures
        r == 2 + nr * 4,
{
    2 + nr * 4
}

/// `n` rounded up to a multiple of `align`.
pub open spec fn align_up_spec(n: int, align: int) -> int {
    if n % align == 0 {
        n
    } else {
        n - n % align + align
    }
}

pub proof fn lemma_align_up(n: int, align: int)
    requires
        0 <= n,
        0 < align,
    ensures
        n <= align_up_spec(n, align) < n + align,
        align_up_spec(n, align) % align == 0,
{
    let a = align_up_spec(n, align);
    vstd::arithmetic::div_mod::lemma_fundamental_div_mod(n, align);
    let q = n / align;
    if n % align != 0 {
        assert(a == align * q + align);
        assert(a == (q + 1) * align) by (nonlinear_arith)
            requires
                a == align * q + align,
        ;
        vstd::arithmetic::div_mod::lemma_mod_multiples_basic(q + 1, align);
    }
}

/// Rounding up gives the least multiple at or above `n`.
pub proof fn lemma_align_up_least(n: int, align: int, m: int)
    requires
        0 <= n <= m,
        0 < align,
        m % align == 0,
    ensures
        align_up_spec(n, align) <= m,
{
    vstd::arithmetic::div_mod::lemma_fundamental_div_mod(n, align);
    vstd::arithmetic::div_mod::lemma_fundamental_div_mod(m, align);
    let (q, p, a) = (n / align, m / align, align_up_spec(n, align));
    if n % align != 0 && m < a {
        assert(false) by (nonlinear_arith)
            requires
                0 < align,
                m == align * p,
                align * q < n,
                n <= m,
                m < a,
                a == align * q + align,
        ;
    }
}

/// Round `n` up to a multiple of `align`.
pub fn align_up(n: usize, align: usize) -> (r: usize)
    requires
        0 < align,
        n + align <= usize::MAX,
    ensures
        r == align_up_spec(n as int, align as int),
{
    let rem: usize = n % align;
    proof {
        vstd::arithmetic::div_mod::lemma_mod_decreases(n as nat, align as nat);
    }
    if rem == 0 {
        n
    } else {
        n - rem + align
    }
}

// --- inline format -----------------------------------------------------------
//
// Whole-bitmap encoding for scattered or small sets: [0..2) magic "FI",
// [2..4) u16 count, [4..) packed ascending u32 values, padded to 8 bytes.

/// First byte of the inline magic, `F`.
pub const INLINE_MAGIC_0: u8 = 70;

/// Second byte of the inline magic, `I`.
pub const INLINE_MAGIC_1: u8 = 73;

/// Magic (2 bytes) and count (2 bytes); the values start here.
pub const INLINE_HEADER_SIZE: usize = 4;

/// Byte offset of the value count.
pub const INLINE_COUNT_OFF: usize = 2;

/// Most values an inline bitmap can hold.
pub const INLINE_MAX_COUNT: usize = 65535;

/// Serialized size of an inline bitmap with `n` values.
pub open spec fn inline_size_spec(n: int) -> int {
    align_up_spec(4 + 4 * n, 8)
}

/// Serialized size of an inline bitmap with `n` values.
pub fn inline_size(n: usize) -> (r: usize)
    requires
        16 + 4 * n <= usize::MAX,
    ensures
        r == inline_size_spec(n as int),
{
    align_up(INLINE_HEADER_SIZE + 4 * n, WORD_ALIGN)
}

/// `b` starts with the inline magic.
pub open spec fn inline_magic(b: Seq<u8>) -> bool {
    b.len() >= 2 && b[0] == INLINE_MAGIC_0 && b[1] == INLINE_MAGIC_1
}

/// Whether `bytes` starts with the inline magic.
pub fn has_inline_magic(bytes: &[u8]) -> (r: bool)
    ensures
        r == inline_magic(bytes@),
{
    bytes.len() >= 2 && bytes[0] == INLINE_MAGIC_0 && bytes[1] == INLINE_MAGIC_1
}

// --- header ------------------------------------------------------------------

/// Cardinality of a full bitmap, carried by [`FLAG_FULL`].
pub const FULL_CARDINALITY: u64 = 0x1_0000_0000;

/// Decoded standard-format header.
#[derive(Debug, Clone, Copy, PartialEq, Eq, Structural)]
pub struct Header {
    pub has_runs: bool,
    pub has_bitmap: bool,
    pub num_containers: u32,
    /// Total set bits, `0..=FULL_CARDINALITY`.
    pub cardinality: u64,
}

/// `b` opens with a standard header this version reads.
pub open spec fn header_ok(b: Seq<u8>) -> bool {
    &&& b.len() >= HEADER_SIZE
    &&& u32_at(b, 0) == MAGIC
    &&& u16_at(b, 4) == VERSION
}

/// The header that the first bytes of `b` hold.
pub open spec fn header_of(b: Seq<u8>) -> Header {
    let flags = u16_at(b, 6);
    Header {
        has_runs: flags % 2 == 1,
        has_bitmap: (flags / 4) % 2 == 1,
        num_containers: u32_at(b, 8),
        cardinality: if (flags / 2) % 2 == 1 {
            FULL_CARDINALITY
        } else {
            u32_at(b, 12) as u64
        },
    }
}

/// The flags of a header.
pub open spec fn flag_word(h: Header) -> int {
    (if h.has_runs {
        FLAG_HAS_RUNS as int
    } else {
        0
    }) + (if h.has_bitmap {
        FLAG_HAS_BITMAP as int
    } else {
        0
    }) + (if h.cardinality == FULL_CARDINALITY {
        FLAG_FULL as int
    } else {
        0
    })
}

/// The cardinality field of a header.
pub open spec fn card_word(h: Header) -> int {
    if h.cardinality == FULL_CARDINALITY {
        0
    } else {
        h.cardinality as int
    }
}

impl Header {
    /// Write the 16-byte header into the front of `buf`.
    pub fn write(&self, buf: &mut [u8])
        requires
            old(buf).len() >= HEADER_SIZE,
            self.cardinality <= FULL_CARDINALITY,
        ensures
            header_ok(final(buf)@),
            header_of(final(buf)@) == *self,
            u16_at(final(buf)@, 6) == flag_word(*self),
            u32_at(final(buf)@, 12) == card_word(*self),
            same_outside(final(buf)@, old(buf)@, 0, HEADER_SIZE as int),
    {
        let mut flags: u16 = 0;
        if self.has_runs {
            flags = flags + FLAG_HAS_RUNS;
        }
        if self.has_bitmap {
            flags = flags + FLAG_HAS_BITMAP;
        }
        let mut card_field: u32 = 0;
        if self.cardinality == FULL_CARDINALITY {
            flags = flags + FLAG_FULL;
        } else {
            card_field = self.cardinality as u32;
        }
        write_u32(buf, H_MAGIC, MAGIC);
        write_u16(buf, H_VERSION, VERSION);
        write_u16(buf, H_FLAGS, flags);
        write_u32(buf, H_NUM_CONTAINERS, self.num_containers);
        write_u32(buf, H_CARDINALITY, card_field);
    }

    /// Parse a header; `None` on short input, bad magic, or another version.
    pub fn parse(bytes: &[u8]) -> (r: Option<Header>)
        ensures
            r is Some <==> header_ok(bytes@),
            r matches Some(h) ==> h == header_of(bytes@),
    {
        if bytes.len() < HEADER_SIZE {
            return None;
        }
        if read_u32(bytes, H_MAGIC) != MAGIC {
            return None;
        }
        if read_u16(bytes, H_VERSION) != VERSION {
            return None;
        }
        let flags: u16 = read_u16(bytes, H_FLAGS);
        let card_field: u32 = read_u32(bytes, H_CARDINALITY);
        Some(
            Header {
                has_runs: flags % 2 == 1,
                has_bitmap: (flags / 4) % 2 == 1,
                num_containers: read_u32(bytes, H_NUM_CONTAINERS),
                cardinality: if (flags / 2) % 2 == 1 {
                    FULL_CARDINALITY
                } else {
                    card_field as u64
                },
            },
        )
    }
}

// --- container index -----------------------------------------------------------
//
// keys[u16; n] at 16, cards[u16; n] at 16 + 2n (card - 1), type and offset
// [u32; n] at 16 + 4n (2-bit type, then a 30-bit offset).

/// Weight of the 2-bit container type in a type-and-offset word.
pub const E_TYPE_UNIT: u32 = 0x4000_0000;

/// Largest data offset a type-and-offset word holds.
pub const E_OFFSET_MASK: u32 = 0x3FFF_FFFF;

/// Index byte size for `n` containers.
pub fn index_size(n: usize) -> (r: usize)
    requires
        8 * n <= usize::MAX,
    ensures
        r == 8 * n,
{
    8 * n
}

/// Start of the data section.
pub open spec fn data_off_spec(n: int, has_bitmap: bool) -> int {
    align_up_spec(
        16 + 8 * n,
        if has_bitmap {
            64
        } else {
            8
        },
    )
}

/// Data section start: 64-aligned iff a bitmap container exists, else 8.
pub fn data_section_off(n: usize, has_bitmap: bool) -> (r: usize)
    requires
        80 + 8 * n <= usize::MAX,
    ensures
        r == data_off_spec(n as int, has_bitmap),
{
    align_up(
        HEADER_SIZE + index_size(n),
        if has_bitmap {
            BUF_ALIGN
        } else {
            WORD_ALIGN
        },
    )
}

pub fn keys_off() -> (r: usize)
    ensures
        r == 16,
{
    HEADER_SIZE
}

pub fn cards_off(n: usize) -> (r: usize)
    requires
        16 + 2 * n <= usize::MAX,
    ensures
        r == 16 + 2 * n,
{
    HEADER_SIZE + 2 * n
}

pub fn type_offsets_off(n: usize) -> (r: usize)
    requires
        16 + 4 * n <= usize::MAX,
    ensures
        r == 16 + 4 * n,
{
    HEADER_SIZE + 4 * n
}

/// A decoded container index slot.
#[derive(Debug, Clone, Copy, PartialEq, Eq, Structural)]
pub struct IndexEntry {
    pub key: u16,
    pub typ: u8,
    /// Cardinality, 1..=65536.
    pub cardinality: u32,
    /// Payload offset from the start of the data section.
    pub data_offset: u32,
}

/// Key of container `i`.
pub open spec fn key_at(b: Seq<u8>, i: int) -> u16 {
    u16_at(b, 16 + 2 * i)
}

/// Entry `i` of an index of `n` containers.
pub open spec fn entry_at(b: Seq<u8>, n: int, i: int) -> IndexEntry {
    let to = u32_at(b, 16 + 4 * n + 4 * i);
    IndexEntry {
        key: key_at(b, i),
        typ: (to / E_TYPE_UNIT) as u8,
        cardinality: (u16_at(b, 16 + 2 * n + 2 * i) + 1) as u32,
        data_offset: to % E_TYPE_UNIT,
    }
}

pub fn read_key(bytes: &[u8], i: usize) -> (r: u16)
    requires
        18 + 2 * i <= bytes.len(),
    ensures
        r == key_at(bytes@, i as int),
{
    read_u16(bytes, keys_off() + i * 2)
}

pub fn read_index_entry(bytes: &[u8], n: usize, i: usize) -> (r: IndexEntry)
    requires
        i < n,
        16 + 8 * n <= bytes.len(),
    ensures
        r == entry_at(bytes@, n as int, i as int),
{
    let to: u32 = read_u32(bytes, type_offsets_off(n) + i * 4);
    IndexEntry {
        key: read_u16(bytes, keys_off() + i * 2),
        typ: (to / E_TYPE_UNIT) as u8,
        cardinality: read_u16(bytes, cards_off(n) + i * 2) as u32 + 1,
        data_offset: to % E_TYPE_UNIT,
    }
}

/// `a` and `b` hold the same index entries but for entry `i`.
pub open spec fn same_entries_but(a: Seq<u8>, b: Seq<u8>, n: int, i: int) -> bool {
    forall|j: int| 0 <= j < n && j != i ==> #[trigger] entry_at(a, n, j) == entry_at(b, n, j)
}

pub fn write_index_entry(buf: &mut [u8], n: usize, i: usize, e: IndexEntry)
    requires
        i < n,
        16 + 8 * n <= old(buf).len(),
        1 <= e.cardinality <= 65536,
        e.data_offset <= E_OFFSET_MASK,
        e.typ <= 3,
    ensures
        entry_at(final(buf)@, n as int, i as int) == e,
        same_entries_but(final(buf)@, old(buf)@, n as int, i as int),
        same_outside(final(buf)@, old(buf)@, 16, 16 + 8 * n),
{
    write_u16(buf, keys_off() + i * 2, e.key);
    write_u16(buf, cards_off(n) + i * 2, (e.cardinality - 1) as u16);
    let to: u32 = (e.typ as u32) * E_TYPE_UNIT + e.data_offset;
    write_u32(buf, type_offsets_off(n) + i * 4, to);
}

/// The container index of a standard bitmap, read field by field.
#[derive(Clone, Copy)]
pub struct Index<'a> {
    bytes: &'a [u8],
    n: usize,
}

impl<'a> Index<'a> {
    /// Room for every entry.
    pub closed spec fn wf(self) -> bool {
        16 + 8 * self.n <= self.bytes.len()
    }

    /// The bytes the index is read from.
    pub closed spec fn src(self) -> Seq<u8> {
        self.bytes@
    }

    /// Number of containers.
    pub closed spec fn count(self) -> int {
        self.n as int
    }

    /// Borrow the index of an `n`-container standard bitmap.
    pub fn new(bytes: &'a [u8], n: usize) -> (r: Self)
        requires
            16 + 8 * n <= bytes.len(),
        ensures
            r.wf(),
            r.src() == bytes@,
            r.count() == n,
    {
        Index { bytes, n }
    }

    /// Key of container `i`, or `None` past the end.
    pub fn key(&self, i: usize) -> (r: Option<u16>)
        requires
            self.wf(),
        ensures
            r == (if i < self.count() {
                Some(key_at(self.src(), i as int))
            } else {
                None
            }),
    {
        if i < self.n {
            Some(read_key(self.bytes, i))
        } else {
            None
        }
    }

    /// Position of the container holding `key`, or `None` if absent.
    pub fn find(&self, key: u16) -> (r: Option<usize>)
        requires
            self.wf(),
            keys_ascend(self.src(), self.count()),
        ensures
            match r {
                Some(i) => i < self.count() && key_at(self.src(), i as int) == key,
                None => forall|i: int| 0 <= i < self.count() ==> key_at(self.src(), i) != key,
            },
    {
        let mut lo: usize = 0;
        let mut hi: usize = self.n;
        while lo < hi
            invariant
                lo <= hi <= self.n,
                self.wf(),
                keys_ascend(self.src(), self.count()),
                forall|i: int| 0 <= i < lo ==> key_at(self.src(), i) < key,
                forall|i: int| hi <= i < self.n ==> key_at(self.src(), i) > key,
            decreases hi - lo,
        {
            let mid: usize = lo + (hi - lo) / 2;
            let k: u16 = read_key(self.bytes, mid);
            if k < key {
                lo = mid + 1;
            } else if k > key {
                hi = mid;
            } else {
                return Some(mid);
            }
        }
        None
    }

    /// Decoded entry `i`.
    pub fn entry(&self, i: usize) -> (r: IndexEntry)
        requires
            self.wf(),
            i < self.count(),
        ensures
            r == entry_at(self.src(), self.count(), i as int),
    {
        read_index_entry(self.bytes, self.n, i)
    }
}

/// The first `n` keys of the index in `b` are strictly ascending.
pub open spec fn keys_ascend(b: Seq<u8>, n: int) -> bool {
    forall|i: int, j: int| 0 <= i < j < n ==> #[trigger] key_at(b, i) < #[trigger] key_at(b, j)
}

} // verus!
