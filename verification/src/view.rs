//! Reader over frozen bitmap bytes (for example an `mmap`), without
//! deserialization.
use vstd::prelude::*;

use crate::container::{
    array_at, bitmap_at, lemma_runs_set_len, packed_at, payload_ok, payload_set, payload_size,
    run_at, runs_at, runs_card, runs_ok, runs_set, words_at,
};
use crate::format::{
    data_section_off, has_inline_magic, header_ok, inline_magic, key_at, keys_ascend,
    read_index_entry, read_u16, read_u32, read_u64, u16_at, Header, Index, IndexEntry, BITMAP_BYTES,
    BITMAP_WORDS, CT_ARRAY, CT_BITMAP, CT_RUN, INLINE_COUNT_OFF, INLINE_HEADER_SIZE, MAX_RUNS,
    WORD_ALIGN,
};
use crate::frozen::{
    aligned_at,
    card_sum, frozen_card, frozen_ok, frozen_set, inline_ok, inline_vals, lemma_frozen_card,
    lemma_keys_bound, lemma_std, std_base, std_blocks, std_entry, std_lows, std_n, std_ok,
    std_payload_ok,
};
use crate::iter::Iter;
use crate::model::{
    asc16, asc32, block_has, hi, lemma_join, lemma_set32, lemma_split, lemma_under_block, lo, under,
};
use crate::words::{first_value, last_value, lemma_bits_set, lemma_ones_step, ones_upto};

verus! {

/// Address of the first byte of `bytes`: `<[u8]>::as_ptr`. Where a slice lies in
/// memory is a fact of the run, so nothing is promised of the result.
#[verifier::external_body]
fn address(bytes: &[u8]) -> (r: usize) {
    bytes.as_ptr() as usize
}

/// Reading the address of `bytes` gave `addr`.
pub closed spec fn lies_at(bytes: &[u8], addr: usize) -> bool {
    call_ensures(address, (bytes,), addr)
}

/// Nothing else tells where `bytes` lie.
proof fn lemma_lies_at(bytes: &[u8], addr: usize)
    ensures
        lies_at(bytes, addr) <==> call_ensures(address, (bytes,), addr),
{
}

/// Read the address of `bytes` by `read`.
fn read_address<F: Fn(&[u8]) -> usize>(read: F, bytes: &[u8]) -> (r: usize)
    requires
        call_requires(read, (bytes,)),
    ensures
        call_ensures(read, (bytes,), r),
{
    read(bytes)
}

/// Largest alignment a standard payload needs.
pub const PAYLOAD_ALIGN: usize = 8;

/// Alignment of packed inline values.
pub const PACKED_ALIGN: usize = 4;

/// Bytes at address `addr` may be read as frozen bitmap `b`: the standard payloads
/// need an 8-aligned base, packed values a 4-aligned one.
pub open spec fn aligned(b: Seq<u8>, addr: int) -> bool {
    if inline_magic(b) {
        u16_at(b, 2) == 0 || addr % 4 == 0
    } else {
        addr % 8 == 0
    }
}

/// Whether the content of the payload at `start`, whose bytes are in bounds, is
/// valid.
fn payload_is_valid(bytes: &[u8], typ: u8, card: u32, start: usize) -> (r: bool)
    requires
        typ <= CT_RUN,
        1 <= card <= 65536,
        typ == CT_RUN ==> start + 2 <= bytes.len(),
        start + payload_size(bytes@, start as int, typ, card as int) <= bytes.len(),
    ensures
        r == payload_ok(bytes@, start as int, typ, card as int),
{
    if typ == CT_ARRAY {
        array_is_valid(bytes, card as usize, start)
    } else if typ == CT_BITMAP {
        let mut pop: u32 = 0;
        let mut w: usize = 0;
        let ghost words = words_at(bytes@, start as int);
        while w < BITMAP_WORDS
            invariant
                w <= BITMAP_WORDS,
                start + BITMAP_BYTES <= bytes.len(),
                words == words_at(bytes@, start as int),
                pop == ones_upto(words, w as int),
                pop <= 64 * w,
            decreases BITMAP_WORDS - w,
        {
            proof {
                lemma_ones_step(words, w as int);
            }
            pop = pop + read_u64(bytes, start + 8 * w).count_ones();
            w = w + 1;
        }
        proof {
            lemma_bits_set(words);
        }
        pop == card
    } else {
        runs_are_valid(bytes, card, start)
    }
}

fn array_is_valid(bytes: &[u8], card: usize, start: usize) -> (r: bool)
    requires
        start + 2 * card <= bytes.len(),
    ensures
        r == asc16(array_at(bytes@, start as int, card as int)),
{
    let ghost a = array_at(bytes@, start as int, card as int);
    let mut prev: u16 = 0;
    let mut j: usize = 0;
    while j < card
        invariant
            j <= card,
            start + 2 * card <= bytes.len(),
            a == array_at(bytes@, start as int, card as int),
            asc16(a.take(j as int)),
            j > 0 ==> prev == a[j - 1],
        decreases card - j,
    {
        let v: u16 = read_u16(bytes, start + 2 * j);
        assert(v == a[j as int]);
        if j > 0 && v <= prev {
            assert(a[j - 1] >= a[j as int]);
            return false;
        }
        proof {
            let (p, q) = (a.take(j as int), a.take(j + 1));
            assert forall|i: int, k: int| 0 <= i < k < q.len() implies q[i] < q[k] by {
                if k == j {
                    assert(p[i] <= p[j - 1]);
                } else {
                    assert(p[i] < p[k]);
                }
            }
        }
        prev = v;
        j = j + 1;
    }
    assert(a.take(card as int) =~= a);
    true
}

fn runs_are_valid(bytes: &[u8], card: u32, start: usize) -> (r: bool)
    requires
        start + 2 <= bytes.len(),
        start + 2 + 4 * u16_at(bytes@, start as int) <= bytes.len(),
        1 <= card <= 65536,
    ensures
        r == payload_ok(bytes@, start as int, CT_RUN, card as int),
{
    let ghost a = runs_at(bytes@, start as int);
    let nr: usize = read_u16(bytes, start) as usize;
    if nr == 0 || nr > MAX_RUNS {
        return false;
    }
    let mut total: u32 = 0;
    let mut prev_end: u32 = 0;
    let mut k: usize = 0;
    while k < nr
        invariant
            k <= nr <= MAX_RUNS,
            nr == u16_at(bytes@, start as int),
            start + 2 + 4 * nr <= bytes.len(),
            a == runs_at(bytes@, start as int),
            runs_ok(a.take(k as int)),
            k > 0 ==> prev_end == a[k - 1].last(),
            total == runs_card(a, k as int),
            total <= 65536 * k,
        decreases nr - k,
    {
        let off: usize = start + 2 + 4 * k;
        let s: u32 = read_u16(bytes, off) as u32;
        let len: u32 = read_u16(bytes, off + 2) as u32;
        let end: u32 = s + len;
        assert(a[k as int].start == s && a[k as int].len == len);
        if end > 0xFFFF {
            assert(!a[k as int].wf());
            return false;
        }
        if k > 0 && s <= prev_end {
            assert(a[k - 1].last() >= a[k as int].start);
            return false;
        }
        proof {
            let (p, q) = (a.take(k as int), a.take(k + 1));
            assert(q =~= p.push(a[k as int]));
            assert forall|i: int, j: int| 0 <= i < j < q.len() implies (#[trigger] q[i]).last() < (
            #[trigger] q[j]).start by {
                if j == k {
                    if i < k - 1 {
                        assert(p[i].last() < p[k - 1].start);
                        assert(p[k - 1].wf());
                    }
                } else {
                    assert(p[i].last() < p[j].start);
                }
            }
        }
        total = total + (len + 1);
        prev_end = end;
        k = k + 1;
    }
    assert(a.take(nr as int) =~= a);
    proof {
        lemma_runs_set_len(a);
    }
    total == card
}

/// Whether container `i` is of a stored type with a valid payload inside `bytes`.
fn container_is_valid(bytes: &[u8], data_base: usize, e: &IndexEntry) -> (r: bool)
    requires
        1 <= e.cardinality <= 65536,
    ensures
        r == (e.typ <= CT_RUN && payload_ok(
            bytes@,
            data_base + e.data_offset,
            e.typ,
            e.cardinality as int,
        )),
{
    let len: u64 = bytes.len() as u64;
    if e.typ > CT_RUN || data_base as u64 > len {
        return false;
    }
    let start: u128 = data_base as u128 + e.data_offset as u128;
    if start + 2 > len as u128 {
        return false;
    }
    let size: u64 = if e.typ == CT_ARRAY {
        e.cardinality as u64 * 2
    } else if e.typ == CT_BITMAP {
        BITMAP_BYTES as u64
    } else {
        2 + 4 * (read_u16(bytes, start as usize) as u64)
    };
    if start + size as u128 > len as u128 {
        return false;
    }
    payload_is_valid(bytes, e.typ, e.cardinality, start as usize)
}

/// A frozen bitmap read directly from raw bytes, in either encoding: standard
/// (`FROZ`) or inline (`FI`).
#[derive(Clone, Copy)]
pub struct FrozenBitmapView<'a> {
    bytes: &'a [u8],
    repr: Repr,
    cardinality: u64,
}

#[derive(Clone, Copy)]
enum Repr {
    Standard { n: usize, data_base: usize },
    Inline { count: usize },
}

impl<'a> View for FrozenBitmapView<'a> {
    type V = Set<u32>;

    open spec fn view(&self) -> Set<u32> {
        frozen_set(self.src())
    }
}

impl<'a> FrozenBitmapView<'a> {
    /// The bytes are a well-formed frozen bitmap, and the fields are read from them.
    #[verifier::type_invariant]
    closed spec fn inv(self) -> bool {
        &&& frozen_ok(self.bytes@)
        &&& self.cardinality == frozen_card(self.bytes@)
        &&& match self.repr {
            Repr::Standard { n, data_base } => {
                &&& !inline_magic(self.bytes@)
                &&& n == std_n(self.bytes@)
                &&& data_base == std_base(self.bytes@)
            },
            Repr::Inline { count } => {
                &&& inline_magic(self.bytes@)
                &&& count == u16_at(self.bytes@, 2)
            },
        }
    }

    /// The bytes the view reads.
    pub closed spec fn src(self) -> Seq<u8> {
        self.bytes@
    }

    /// A view's bytes are a well-formed frozen bitmap.
    pub fn well_formed(&self)
        ensures
            frozen_ok(self.src()),
    {
        proof {
            use_type_invariant(self);
        }
    }

    /// Validate and wrap `bytes`. `None` if they are not a well-formed frozen bitmap
    /// (bad header, payload out of bounds or off its boundary, keys or values not ascending,
    /// cardinality that does not match), or if they are not aligned for their payloads. An
    /// inline bitmap without values has nothing to align and is accepted anywhere.
    pub fn from_bytes(bytes: &'a [u8]) -> (r: Option<Self>)
        ensures
            r matches Some(v) ==> frozen_ok(bytes@) && v.src() == bytes@,
            frozen_ok(bytes@) && inline_magic(bytes@) && u16_at(bytes@, 2) == 0 ==> r is Some,
            exists|addr: usize| #[trigger]
                lies_at(bytes, addr) && (r is Some <==> frozen_ok(bytes@) && aligned(
                    bytes@,
                    addr as int,
                )),
    {
        let addr: usize = read_address(address, bytes);
        proof {
            lemma_lies_at(bytes, addr);
        }
        FrozenBitmapView::from_bytes_at(bytes, addr)
    }

    /// Validate and wrap `bytes`, given the address they lie at.
    pub fn from_bytes_at(bytes: &'a [u8], addr: usize) -> (r: Option<Self>)
        ensures
            r is Some <==> frozen_ok(bytes@) && aligned(bytes@, addr as int),
            r matches Some(v) ==> v.src() == bytes@,
    {
        if has_inline_magic(bytes) {
            FrozenBitmapView::parse_inline(bytes, addr)
        } else {
            FrozenBitmapView::parse_standard(bytes, addr)
        }
    }

    fn parse_inline(bytes: &'a [u8], addr: usize) -> (r: Option<Self>)
        requires
            inline_magic(bytes@),
        ensures
            r is Some <==> inline_ok(bytes@) && aligned(bytes@, addr as int),
            r matches Some(v) ==> v.src() == bytes@,
    {
        if bytes.len() < INLINE_HEADER_SIZE {
            return None;
        }
        let count: usize = read_u16(bytes, INLINE_COUNT_OFF) as usize;
        if bytes.len() < INLINE_HEADER_SIZE + count * 4 {
            return None;
        }
        if count > 0 && addr % PACKED_ALIGN != 0 {
            return None;
        }
        let ghost a = inline_vals(bytes@);
        let mut prev: u32 = 0;
        let mut i: usize = 0;
        while i < count
            invariant
                i <= count,
                count == u16_at(bytes@, 2),
                4 + 4 * count <= bytes.len(),
                a == inline_vals(bytes@),
                asc32(a.take(i as int)),
                i > 0 ==> prev == a[i - 1],
            decreases count - i,
        {
            let v: u32 = read_u32(bytes, INLINE_HEADER_SIZE + i * 4);
            assert(v == a[i as int]);
            if i > 0 && v <= prev {
                assert(a[i - 1] >= a[i as int]);
                return None;
            }
            proof {
                let (p, q) = (a.take(i as int), a.take(i + 1));
                assert forall|j: int, k: int| 0 <= j < k < q.len() implies q[j] < q[k] by {
                    if k == i {
                        assert(p[j] <= p[i - 1]);
                    } else {
                        assert(p[j] < p[k]);
                    }
                }
            }
            prev = v;
            i = i + 1;
        }
        assert(a.take(count as int) =~= a);
        Some(FrozenBitmapView { bytes, repr: Repr::Inline { count }, cardinality: count as u64 })
    }

    fn parse_standard(bytes: &'a [u8], addr: usize) -> (r: Option<Self>)
        requires
            !inline_magic(bytes@),
        ensures
            r is Some <==> std_ok(bytes@) && aligned(bytes@, addr as int),
            r matches Some(v) ==> v.src() == bytes@,
    {
        if addr % WORD_ALIGN != 0 {
            return None;
        }
        let h: Header = match Header::parse(bytes) {
            Some(h) => h,
            None => {
                return None;
            },
        };
        if (bytes.len() as u64) < 16 + 8 * (h.num_containers as u64) {
            return None;
        }
        let n: usize = h.num_containers as usize;
        if n > 65536 {
            proof {
                if keys_ascend(bytes@, n as int) {
                    lemma_keys_bound(bytes@, n as int);
                }
            }
            return None;
        }
        let data_base: usize = data_section_off(n, h.has_bitmap);
        if bytes.len() < data_base {
            return None;
        }
        let mut prev_key: u16 = 0;
        let mut sum_card: u64 = 0;
        let mut i: usize = 0;
        while i < n
            invariant
                i <= n <= 65536,
                header_ok(bytes@),
                n == std_n(bytes@),
                16 + 8 * n <= bytes.len(),
                data_base == std_base(bytes@),
                keys_ascend(bytes@, i as int),
                i > 0 ==> prev_key == key_at(bytes@, i - 1),
                forall|k: int| 0 <= k < i ==> #[trigger] std_payload_ok(bytes@, k),
                forall|k: int| 0 <= k < i ==> #[trigger] aligned_at(bytes@, k),
                sum_card == card_sum(bytes@, i as int),
                sum_card <= 65536 * i,
            decreases n - i,
        {
            let e: IndexEntry = read_index_entry(bytes, n, i);
            assert(e == std_entry(bytes@, i as int));
            if i > 0 && e.key <= prev_key {
                assert(key_at(bytes@, i - 1) >= key_at(bytes@, i as int));
                return None;
            }
            prev_key = e.key;
            sum_card = sum_card + e.cardinality as u64;
            if !container_is_valid(bytes, data_base, &e) {
                assert(!std_payload_ok(bytes@, i as int));
                return None;
            }
            assert(std_payload_ok(bytes@, i as int));
            let align: u64 = if e.typ == CT_BITMAP {
                64
            } else {
                2
            };
            if (data_base as u64 + e.data_offset as u64) % align != 0 {
                assert(!aligned_at(bytes@, i as int));
                return None;
            }
            assert(aligned_at(bytes@, i as int));
            assert(keys_ascend(bytes@, i + 1)) by {
                assert forall|j: int, k: int| 0 <= j < k < i + 1 implies #[trigger] key_at(bytes@, j)
                    < #[trigger] key_at(bytes@, k) by {
                    if k == i && j < i - 1 {
                        assert(key_at(bytes@, j) < key_at(bytes@, i - 1));
                    }
                }
            }
            i = i + 1;
        }
        if sum_card != h.cardinality {
            return None;
        }
        Some(
            FrozenBitmapView {
                bytes,
                repr: Repr::Standard { n, data_base },
                cardinality: h.cardinality,
            },
        )
    }

    /// Wrap bytes known to be a well-formed frozen bitmap, without validation.
    pub fn from_bytes_trusted(bytes: &'a [u8]) -> (r: Self)
        requires
            frozen_ok(bytes@),
        ensures
            r.src() == bytes@,
    {
        if has_inline_magic(bytes) {
            let count: usize = read_u16(bytes, INLINE_COUNT_OFF) as usize;
            return FrozenBitmapView {
                bytes,
                repr: Repr::Inline { count },
                cardinality: count as u64,
            };
        }
        proof {
            lemma_std(bytes@);
        }
        let n: usize = read_u32(bytes, 8) as usize;
        let h: Header = match Header::parse(bytes) {
            Some(h) => h,
            None => Header {
                has_runs: false,
                has_bitmap: false,
                num_containers: 0,
                cardinality: 0,
            },
        };
        FrozenBitmapView {
            bytes,
            repr: Repr::Standard { n, data_base: data_section_off(n, h.has_bitmap) },
            cardinality: h.cardinality,
        }
    }

    /// The raw bytes.
    pub fn as_bytes(&self) -> (r: &'a [u8])
        ensures
            r@ == self.src(),
            frozen_ok(r@),
    {
        proof {
            use_type_invariant(self);
        }
        self.bytes
    }

    /// Whether this view reads the inline encoding.
    pub fn is_inline(&self) -> (r: bool)
        ensures
            r == inline_magic(self.src()),
    {
        proof {
            use_type_invariant(self);
        }
        match self.repr {
            Repr::Inline { .. } => true,
            Repr::Standard { .. } => false,
        }
    }

    /// Number of values.
    pub fn len(&self) -> (r: u64)
        ensures
            r == self@.len(),
    {
        proof {
            use_type_invariant(self);
            lemma_frozen_card(self.bytes@);
        }
        self.cardinality
    }

    /// Whether there are no values.
    pub fn is_empty(&self) -> (r: bool)
        ensures
            r == (self@ == Set::<u32>::empty()),
    {
        proof {
            use_type_invariant(self);
            lemma_frozen_card(self.bytes@);
            if self@.len() == 0 {
                assert(self@ =~= Set::<u32>::empty());
            }
        }
        self.cardinality == 0
    }

    /// Containers in the standard index; 0 for inline, which has none.
    pub fn num_containers(&self) -> (r: usize)
        ensures
            r == (if inline_magic(self.src()) {
                0
            } else {
                std_n(self.src())
            }),
    {
        proof {
            use_type_invariant(self);
        }
        match self.repr {
            Repr::Standard { n, .. } => n,
            Repr::Inline { .. } => 0,
        }
    }

    /// Container count and data section start, or `None` if inline.
    pub fn standard_dims(&self) -> (r: Option<(usize, usize)>)
        ensures
            r is Some <==> !inline_magic(self.src()),
            r matches Some(d) ==> d.0 == std_n(self.src()) && d.1 == std_base(self.src()),
    {
        proof {
            use_type_invariant(self);
        }
        match self.repr {
            Repr::Standard { n, data_base } => Some((n, data_base)),
            Repr::Inline { .. } => None,
        }
    }

    /// Number of packed values, or `None` if standard.
    pub fn inline_count(&self) -> (r: Option<usize>)
        ensures
            r is Some <==> inline_magic(self.src()),
            r matches Some(c) ==> c == u16_at(self.src(), 2),
    {
        proof {
            use_type_invariant(self);
        }
        match self.repr {
            Repr::Inline { count } => Some(count),
            Repr::Standard { .. } => None,
        }
    }

    /// Whether `value` is set.
    pub fn contains(&self, value: u32) -> (r: bool)
        ensures
            r == self@.contains(value),
    {
        proof {
            use_type_invariant(self);
        }
        match self.repr {
            Repr::Inline { count } => inline_contains(self.bytes, count, value),
            Repr::Standard { n, data_base } => {
                let key: u16 = (value / 65536) as u16;
                let low: u16 = (value % 65536) as u16;
                let ghost b = self.bytes@;
                proof {
                    lemma_std(b);
                }
                let i: usize = match Index::new(self.bytes, n).find(key) {
                    Some(i) => i,
                    None => {
                        proof {
                            assert forall|k: int| 0 <= k < n implies !(#[trigger] block_has(
                                std_blocks(b),
                                k,
                                value,
                            )) by {
                                assert(key_at(b, k) != key);
                            }
                        }
                        return false;
                    },
                };
                let e: IndexEntry = read_index_entry(self.bytes, n, i);
                proof {
                    assert(e == std_entry(b, i as int));
                    assert(std_payload_ok(b, i as int));
                    assert(self@.contains(value) == std_lows(b, i as int).contains(low)) by {
                        lemma_split(value);
                        lemma_under_block(std_blocks(b), i as int);
                        assert(under(self@, key).contains(low) == self@.contains(value));
                    }
                }
                let start: usize = data_base + e.data_offset as usize;
                if e.typ == CT_ARRAY {
                    array_contains(self.bytes, start, e.cardinality as usize, low)
                } else if e.typ == CT_BITMAP {
                    let w: u64 = read_u64(self.bytes, start + (low as usize / 64) * 8);
                    assert(w == words_at(b, start as int)[low as int / 64]);
                    (w >> (low as u64 % 64)) & 1 == 1
                } else {
                    run_contains(self.bytes, start, low)
                }
            },
        }
    }

    /// Smallest value, or `None` if empty.
    pub fn min(&self) -> (r: Option<u32>)
        ensures
            r is None <==> self@ == Set::<u32>::empty(),
            r matches Some(v) ==> self@.contains(v) && forall|x: u32| #[trigger]
                self@.contains(x) ==> v <= x,
    {
        proof {
            use_type_invariant(self);
        }
        match self.repr {
            Repr::Inline { count } => {
                let ghost a = inline_vals(self.bytes@);
                if count == 0 {
                    assert(self@ =~= Set::<u32>::empty());
                    None
                } else {
                    let v: u32 = read_u32(self.bytes, INLINE_HEADER_SIZE);
                    proof {
                        assert(v == a[0]);
                        assert(a.contains(a[0]));
                        assert(self@.contains(v));
                    }
                    Some(v)
                }
            },
            Repr::Standard { n, data_base } => {
                let ghost b = self.bytes@;
                proof {
                    lemma_std(b);
                }
                if n == 0 {
                    assert(self@ =~= Set::<u32>::empty());
                    return None;
                }
                let e: IndexEntry = read_index_entry(self.bytes, n, 0);
                proof {
                    assert(e == std_entry(b, 0));
                    assert(std_payload_ok(b, 0));
                }
                let m: u16 = container_min(self.bytes, data_base, &e);
                let v: u32 = e.key as u32 * 65536 + m as u32;
                proof {
                    lemma_join(e.key, m);
                    assert(block_has(std_blocks(b), 0, v));
                    assert forall|x: u32| #[trigger] self@.contains(x) implies v <= x by {
                        let k = choose|k: int|
                            0 <= k < n && #[trigger] block_has(std_blocks(b), k, x);
                        lemma_split(x);
                        if k > 0 {
                            assert(std_blocks(b)[0].key < std_blocks(b)[k].key);
                        }
                    }
                }
                Some(v)
            },
        }
    }

    /// Largest value, or `None` if empty.
    pub fn max(&self) -> (r: Option<u32>)
        ensures
            r is None <==> self@ == Set::<u32>::empty(),
            r matches Some(v) ==> self@.contains(v) && forall|x: u32| #[trigger]
                self@.contains(x) ==> x <= v,
    {
        proof {
            use_type_invariant(self);
        }
        match self.repr {
            Repr::Inline { count } => {
                let ghost a = inline_vals(self.bytes@);
                if count == 0 {
                    assert(self@ =~= Set::<u32>::empty());
                    None
                } else {
                    let v: u32 = read_u32(self.bytes, INLINE_HEADER_SIZE + (count - 1) * 4);
                    proof {
                        assert(v == a[count - 1]);
                        assert(a.contains(a[count - 1]));
                        assert(self@.contains(v));
                    }
                    Some(v)
                }
            },
            Repr::Standard { n, data_base } => {
                let ghost b = self.bytes@;
                proof {
                    lemma_std(b);
                }
                if n == 0 {
                    assert(self@ =~= Set::<u32>::empty());
                    return None;
                }
                let e: IndexEntry = read_index_entry(self.bytes, n, n - 1);
                proof {
                    assert(e == std_entry(b, n - 1));
                    assert(std_payload_ok(b, n - 1));
                }
                let m: u16 = container_max(self.bytes, data_base, &e);
                let v: u32 = e.key as u32 * 65536 + m as u32;
                proof {
                    lemma_join(e.key, m);
                    assert(block_has(std_blocks(b), n - 1, v));
                    assert forall|x: u32| #[trigger] self@.contains(x) implies x <= v by {
                        let k = choose|k: int|
                            0 <= k < n && #[trigger] block_has(std_blocks(b), k, x);
                        lemma_split(x);
                        if k < n - 1 {
                            assert(std_blocks(b)[k].key < std_blocks(b)[n - 1].key);
                        }
                    }
                }
                Some(v)
            },
        }
    }
}

/// Smallest low half of a container.
fn container_min(bytes: &[u8], data_base: usize, e: &IndexEntry) -> (r: u16)
    requires
        e.typ <= CT_RUN,
        payload_ok(bytes@, data_base + e.data_offset, e.typ, e.cardinality as int),
    ensures
        payload_set(bytes@, data_base + e.data_offset, e.typ, e.cardinality as int).contains(r),
        forall|x: u16| #[trigger]
            payload_set(
                bytes@,
                data_base + e.data_offset,
                e.typ,
                e.cardinality as int,
            ).contains(x) ==> r <= x,
{
    assert(bytes@.len() == bytes.len());
    let start: usize = data_base + e.data_offset as usize;
    if e.typ == CT_ARRAY {
        let ghost a = array_at(bytes@, start as int, e.cardinality as int);
        assert(a.contains(a[0]));
        read_u16(bytes, start)
    } else if e.typ == CT_RUN {
        let ghost a = runs_at(bytes@, start as int);
        let v: u16 = read_u16(bytes, start + 2);
        proof {
            assert(a[0].has(v));
            assert forall|x: u16| #[trigger] runs_set(a).contains(x) implies v <= x by {
                let k = choose|k: int| 0 <= k < a.len() && (#[trigger] a[k]).has(x);
                if k > 0 {
                    assert(a[0].last() < a[k].start);
                }
            }
        }
        v
    } else {
        first_value(&*bitmap_at(bytes, start))
    }
}

/// Largest low half of a container.
fn container_max(bytes: &[u8], data_base: usize, e: &IndexEntry) -> (r: u16)
    requires
        e.typ <= CT_RUN,
        payload_ok(bytes@, data_base + e.data_offset, e.typ, e.cardinality as int),
    ensures
        payload_set(bytes@, data_base + e.data_offset, e.typ, e.cardinality as int).contains(r),
        forall|x: u16| #[trigger]
            payload_set(
                bytes@,
                data_base + e.data_offset,
                e.typ,
                e.cardinality as int,
            ).contains(x) ==> x <= r,
{
    assert(bytes@.len() == bytes.len());
    let start: usize = data_base + e.data_offset as usize;
    if e.typ == CT_ARRAY {
        let ghost a = array_at(bytes@, start as int, e.cardinality as int);
        let v: u16 = read_u16(bytes, start + (e.cardinality as usize - 1) * 2);
        proof {
            assert(v == a[e.cardinality - 1]);
            assert(a.contains(a[e.cardinality - 1]));
        }
        v
    } else if e.typ == CT_RUN {
        let ghost a = runs_at(bytes@, start as int);
        let nr: usize = read_u16(bytes, start) as usize;
        let off: usize = start + 2 + (nr - 1) * 4;
        proof {
            assert(a[nr - 1] == run_at(bytes@, off as int));
            assert(a[nr - 1].wf());
        }
        let v: u16 = read_u16(bytes, off) + read_u16(bytes, off + 2);
        proof {
            assert(a[nr - 1].has(v));
            assert forall|x: u16| #[trigger] runs_set(a).contains(x) implies x <= v by {
                let k = choose|k: int| 0 <= k < a.len() && (#[trigger] a[k]).has(x);
                if k < nr - 1 {
                    assert(a[k].last() < a[nr - 1].start);
                }
            }
        }
        v
    } else {
        last_value(&*bitmap_at(bytes, start))
    }
}

/// Whether the packed values hold `value`.
fn inline_contains(bytes: &[u8], count: usize, value: u32) -> (r: bool)
    requires
        4 + 4 * count <= bytes.len(),
        asc32(packed_at(bytes@, 4, count as int)),
    ensures
        r == packed_at(bytes@, 4, count as int).to_set().contains(value),
{
    let ghost a = packed_at(bytes@, 4, count as int);
    let mut lo: usize = 0;
    let mut hi: usize = count;
    while lo < hi
        invariant
            lo <= hi <= count,
            4 + 4 * count <= bytes.len(),
            a == packed_at(bytes@, 4, count as int),
            asc32(a),
            forall|k: int| 0 <= k < lo ==> a[k] < value,
            forall|k: int| hi <= k < count ==> a[k] > value,
        decreases hi - lo,
    {
        let mid: usize = lo + (hi - lo) / 2;
        let v: u32 = read_u32(bytes, INLINE_HEADER_SIZE + mid * 4);
        assert(v == a[mid as int]);
        if v < value {
            lo = mid + 1;
        } else if v > value {
            hi = mid;
        } else {
            assert(a.contains(value));
            return true;
        }
    }
    false
}

/// Whether the array payload at `start` holds `low`.
fn array_contains(bytes: &[u8], start: usize, card: usize, low: u16) -> (r: bool)
    requires
        start + 2 * card <= bytes.len(),
        asc16(array_at(bytes@, start as int, card as int)),
    ensures
        r == array_at(bytes@, start as int, card as int).to_set().contains(low),
{
    let ghost a = array_at(bytes@, start as int, card as int);
    let mut lo: usize = 0;
    let mut hi: usize = card;
    while lo < hi
        invariant
            lo <= hi <= card,
            start + 2 * card <= bytes.len(),
            a == array_at(bytes@, start as int, card as int),
            asc16(a),
            forall|k: int| 0 <= k < lo ==> a[k] < low,
            forall|k: int| hi <= k < card ==> a[k] > low,
        decreases hi - lo,
    {
        let mid: usize = lo + (hi - lo) / 2;
        let v: u16 = read_u16(bytes, start + mid * 2);
        assert(v == a[mid as int]);
        if v < low {
            lo = mid + 1;
        } else if v > low {
            hi = mid;
        } else {
            assert(a.contains(low));
            return true;
        }
    }
    false
}

/// Whether the run payload at `start` covers `low`.
fn run_contains(bytes: &[u8], start: usize, low: u16) -> (r: bool)
    requires
        start + 2 <= bytes.len(),
        start + 2 + 4 * u16_at(bytes@, start as int) <= bytes.len(),
        runs_ok(runs_at(bytes@, start as int)),
    ensures
        r == runs_set(runs_at(bytes@, start as int)).contains(low),
{
    let ghost a = runs_at(bytes@, start as int);
    let nr: usize = read_u16(bytes, start) as usize;
    let v: u32 = low as u32;
    let mut lo: usize = 0;
    let mut hi: usize = nr;
    while lo < hi
        invariant
            lo <= hi <= nr,
            nr == u16_at(bytes@, start as int),
            start + 2 + 4 * nr <= bytes.len(),
            a == runs_at(bytes@, start as int),
            runs_ok(a),
            v == low,
            forall|k: int| 0 <= k < lo ==> (#[trigger] a[k]).last() < low,
            forall|k: int| hi <= k < nr ==> (#[trigger] a[k]).start > low,
        decreases hi - lo,
    {
        let mid: usize = lo + (hi - lo) / 2;
        let off: usize = start + 2 + mid * 4;
        let s: u32 = read_u16(bytes, off) as u32;
        let e: u32 = s + read_u16(bytes, off + 2) as u32;
        assert(a[mid as int].start == s && a[mid as int].last() == e);
        if v < s {
            proof {
                assert forall|k: int| mid <= k < nr implies (#[trigger] a[k]).start > low by {
                    if k > mid {
                        assert(a[mid as int].last() < a[k].start);
                    }
                }
            }
            hi = mid;
        } else if v > e {
            proof {
                assert forall|k: int| 0 <= k < mid + 1 implies (#[trigger] a[k]).last() < low by {
                    if k < mid {
                        assert(a[k].last() < a[mid as int].start);
                    }
                }
            }
            lo = mid + 1;
        } else {
            assert(a[mid as int].has(low));
            return true;
        }
    }
    proof {
        if runs_set(a).contains(low) {
            let k = choose|k: int| 0 <= k < a.len() && (#[trigger] a[k]).has(low);
        }
    }
    false
}

impl<'a> PartialEq for FrozenBitmapView<'a> {
    /// Set equality: the same values, whatever the encoding or the bytes.
    fn eq(&self, other: &Self) -> (r: bool) {
        if self.len() != other.len() {
            return false;
        }
        let mut a: Iter<'a> = self.iter();
        let mut b: Iter<'a> = other.iter();
        loop
            invariant
                (a.rest() == b.rest()) <==> (self@ == other@),
            decreases a.rest().len(),
        {
            let ghost (ra, rb) = (a.rest(), b.rest());
            let (x, y): (Option<u32>, Option<u32>) = (a.next(), b.next());
            match (x, y) {
                (None, None) => {
                    return true;
                },
                (Some(v), Some(w)) => {
                    if v != w {
                        assert(ra != rb) by {
                            assert(ra.contains(v) && rb.contains(w));
                        }
                        return false;
                    }
                    proof {
                        lemma_set32(ra);
                        if ra.remove(v) == rb.remove(v) {
                            assert(ra =~= ra.remove(v).insert(v));
                            assert(rb =~= rb.remove(v).insert(v));
                        }
                    }
                },
                (Some(v), None) => {
                    assert(ra.contains(v));
                    return false;
                },
                (None, Some(w)) => {
                    assert(rb.contains(w));
                    return false;
                },
            }
        }
    }
}

impl<'a> vstd::std_specs::cmp::PartialEqSpecImpl for FrozenBitmapView<'a> {
    open spec fn obeys_eq_spec() -> bool {
        true
    }

    open spec fn eq_spec(&self, other: &Self) -> bool {
        self@ == other@
    }
}

} // verus!
