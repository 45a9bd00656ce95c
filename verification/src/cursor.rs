//! Ascending per-container cursor over a fold input.
use vstd::prelude::*;

use crate::arena::OpArena;
use crate::container::{
    lemma_payload_len, lemma_payload_same, lows, packed_at, payload_ok, payload_set, payload_size,
    runs_at, Data,
};
use crate::format::{
    inline_magic, key_at, read_index_entry, read_key, read_u16, read_u32, u16_at, u32_at,
    IndexEntry, ARRAY_MAX_SIZE, BITMAP_BYTES, CT_ARRAY, CT_BITMAP, CT_INLINE, CT_RUN, MAX_RUNS,
};
use crate::frozen::{
    frozen_set, inline_ok, inline_vals, lemma_std, std_base, std_blocks, std_entry, std_n, std_ok,
    std_payload_ok, std_start,
};
use crate::keymask::KeyMask;
use crate::model::{
    blocks_set, hi, is_first, join, lemma_blocks_first, lemma_join, lemma_split, lemma_under_block,
    lemma_under_some, masked, past, since, under,
};
use crate::view::FrozenBitmapView;
use vstd::slice::slice_subrange;

verus! {

/// One container's metadata and payload. For inline inputs `typ` is [`CT_INLINE`] and
/// `data` is the packed values of the key group.
#[derive(Clone, Copy)]
pub struct ContainerRef<'a> {
    pub key: u16,
    pub typ: u8,
    pub card: u32,
    pub data: &'a [u8],
}

/// Bytes a container occupies as a stored payload: an array or a key group outgrown by
/// a bitmap is stored as one.
pub open spec fn stored_spec(typ: u8, card: int, len: int) -> int {
    if typ == CT_RUN {
        len
    } else if typ == CT_BITMAP || card > ARRAY_MAX_SIZE {
        BITMAP_BYTES as int
    } else {
        2 * card
    }
}

/// Form a container is stored in: a key group as an array, and a group or array outgrown by a
/// bitmap as one.
pub open spec fn stored_form(typ: u8, card: int) -> u8 {
    if typ == CT_RUN {
        CT_RUN
    } else if typ == CT_BITMAP || card > ARRAY_MAX_SIZE {
        CT_BITMAP
    } else {
        CT_ARRAY
    }
}

impl<'a> ContainerRef<'a> {
    /// The data is exactly one valid payload.
    pub open spec fn wf(self) -> bool {
        &&& payload_ok(self.data@, 0, self.typ, self.card as int)
        &&& self.data@.len() == payload_size(self.data@, 0, self.typ, self.card as int)
        &&& self.typ <= CT_INLINE
    }

    /// The values.
    pub open spec fn lows(self) -> Set<u16> {
        payload_set(self.data@, 0, self.typ, self.card as int)
    }

    /// Bytes this container occupies as a stored payload.
    pub open spec fn stored(self) -> int {
        stored_spec(self.typ, self.card as int, self.data@.len() as int)
    }

    /// The payload, decoded.
    pub fn typed(&self) -> (r: Data)
        requires
            self.wf(),
        ensures
            r.wf(),
            r.set() == self.lows(),
            r.set().len() == self.card,
            r is Array <==> self.typ == CT_ARRAY,
            r is Bitmap <==> self.typ == CT_BITMAP,
            r is Run <==> self.typ == CT_RUN,
            r is Inline <==> self.typ == CT_INLINE,
            r matches Data::Run(v) ==> v@.len() <= MAX_RUNS && 2 + 4 * v@.len() == self.data@.len(),
    {
        proof {
            lemma_payload_len(self.data@, 0, self.typ, self.card as int);
        }
        Data::decode(self.typ, self.card, self.data, 0)
    }

    /// No stored payload exceeds a bitmap.
    pub proof fn lemma_stored(self)
        requires
            self.wf(),
        ensures
            self.stored() <= BITMAP_BYTES,
    {
    }

    /// Bytes this container occupies as a stored payload.
    pub fn stored_bytes(&self) -> (r: usize)
        requires
            self.wf(),
        ensures
            r == self.stored(),
            r <= BITMAP_BYTES,
    {
        if self.typ == CT_RUN {
            self.data.len()
        } else if self.typ == CT_BITMAP || self.card as usize > ARRAY_MAX_SIZE {
            BITMAP_BYTES
        } else {
            self.card as usize * 2
        }
    }

    /// Run count, or 0 for other containers.
    pub fn num_runs(&self) -> (r: usize)
        requires
            self.wf(),
        ensures
            self.typ == CT_RUN ==> r == runs_at(self.data@, 0).len() && 2 + 4 * r == self.data@.len(),
            self.typ != CT_RUN ==> r == 0,
            r <= MAX_RUNS,
    {
        if self.typ == CT_RUN {
            read_u16(self.data, 0) as usize
        } else {
            0
        }
    }
}

/// What a cursor walks.
enum Backing<'a> {
    /// A leaf in standard encoding.
    Standard { bytes: &'a [u8], data_base: usize },
    /// A leaf in inline encoding.
    Inline { bytes: &'a [u8] },
    /// An intermediate arena, read back in record order.
    Arena(&'a OpArena),
    /// Nothing.
    Empty,
}

/// Ascending cursor over the containers of a fold input.
pub struct ContainerCursor<'a> {
    backing: Backing<'a>,
    n: usize,
    /// Container index, or value index for inline.
    pos: usize,
    /// Keys outside this mask are skipped.
    live: Option<&'a KeyMask>,
}

/// Stored bytes of the standard container under `key`.
pub open spec fn std_stored(b: Seq<u8>, key: u16) -> int {
    let i = choose|i: int| 0 <= i < std_n(b) && (#[trigger] std_entry(b, i)).key == key;
    let e = std_entry(b, i);
    stored_spec(
        e.typ,
        e.cardinality as int,
        payload_size(b, std_start(b, i), e.typ, e.cardinality as int),
    )
}

/// Stored bytes of the arena container under `key`.
pub open spec fn arena_stored(a: OpArena, key: u16) -> int {
    a.size(choose|j: int| 0 <= j < a.blocks().len() && (#[trigger] a.blocks()[j]).key == key)
}

/// Form of the standard container under `key`.
pub open spec fn std_form(b: Seq<u8>, key: u16) -> u8 {
    let i = choose|i: int| 0 <= i < std_n(b) && (#[trigger] std_entry(b, i)).key == key;
    std_entry(b, i).typ
}

/// Form of the arena container under `key`.
pub open spec fn arena_form(a: OpArena, key: u16) -> u8 {
    a.typ_at(choose|j: int| 0 <= j < a.blocks().len() && (#[trigger] a.blocks()[j]).key == key)
}

/// Form of the container under `key` of a frozen bitmap.
pub open spec fn frozen_form(b: Seq<u8>, key: u16) -> u8 {
    if inline_magic(b) {
        CT_INLINE
    } else {
        std_form(b, key)
    }
}

/// Stored bytes of the container under `key` of a frozen bitmap.
pub open spec fn frozen_stored(b: Seq<u8>, key: u16) -> int {
    if inline_magic(b) {
        stored_spec(CT_INLINE, under(frozen_set(b), key).len() as int, 0)
    } else {
        std_stored(b, key)
    }
}

impl<'a> Backing<'a> {
    spec fn wf(self, n: int) -> bool {
        match self {
            Backing::Standard { bytes, data_base } => {
                &&& !inline_magic(bytes@)
                &&& std_ok(bytes@)
                &&& n == std_n(bytes@)
                &&& data_base == std_base(bytes@)
            },
            Backing::Inline { bytes } => {
                &&& inline_ok(bytes@)
                &&& n == u16_at(bytes@, 2)
            },
            Backing::Arena(a) => a.wf() && n == a.blocks().len(),
            Backing::Empty => n == 0,
        }
    }

    /// The values from position `p` on.
    spec fn tail(self, p: int) -> Set<u32> {
        match self {
            Backing::Standard { bytes, data_base } => blocks_set(std_blocks(bytes@).skip(p)),
            Backing::Inline { bytes } => inline_vals(bytes@).skip(p).to_set(),
            Backing::Arena(a) => blocks_set(a.blocks().skip(p)),
            Backing::Empty => Set::empty(),
        }
    }

    /// All values.
    spec fn all(self) -> Set<u32> {
        match self {
            Backing::Standard { bytes, data_base } => frozen_set(bytes@),
            Backing::Inline { bytes } => frozen_set(bytes@),
            Backing::Arena(a) => a.set(),
            Backing::Empty => Set::empty(),
        }
    }

    spec fn stored(self, key: u16) -> int {
        match self {
            Backing::Standard { bytes, data_base } => frozen_stored(bytes@, key),
            Backing::Inline { bytes } => frozen_stored(bytes@, key),
            Backing::Arena(a) => arena_stored(*a, key),
            Backing::Empty => 0,
        }
    }

    spec fn form(self, key: u16) -> u8 {
        match self {
            Backing::Standard { bytes, data_base } => frozen_form(bytes@, key),
            Backing::Inline { bytes } => frozen_form(bytes@, key),
            Backing::Arena(a) => arena_form(*a, key),
            Backing::Empty => 0,
        }
    }

    /// Key at position `p`.
    spec fn key(self, p: int) -> u16 {
        match self {
            Backing::Standard { bytes, data_base } => std_blocks(bytes@)[p].key,
            Backing::Inline { bytes } => hi(inline_vals(bytes@)[p]),
            Backing::Arena(a) => a.blocks()[p].key,
            Backing::Empty => 0,
        }
    }

    /// A container starts at position `p`.
    spec fn starts(self, p: int, n: int) -> bool {
        self matches Backing::Inline { bytes } ==> 0 < p < n ==> hi(inline_vals(bytes@)[p - 1]) < hi(
            inline_vals(bytes@)[p],
        )
    }

    /// The container at `p` ends before position `q`.
    spec fn ends(self, p: int, q: int, n: int) -> bool {
        &&& p < q <= n
        &&& self.starts(q, n)
        &&& if self is Inline {
            forall|i: int| p <= i < q ==> #[trigger] self.key(i) == self.key(p)
        } else {
            q == p + 1
        }
    }

    proof fn lemma_tail(self, p: int, q: int, n: int)
        requires
            self.wf(n),
            0 <= p < n,
            self.starts(p, n),
            self.ends(p, q, n),
        ensures
            is_first(self.tail(p), self.key(p)),
            past(self.tail(p), self.key(p)) == self.tail(q),
            under(self.tail(p), self.key(p)) == under(self.all(), self.key(p)),
    {
        match self {
            Backing::Standard { bytes, data_base } => {
                lemma_std(bytes@);
                let s = std_blocks(bytes@);
                lemma_blocks_first(s, p);
                lemma_under_block(s, p);
            },
            Backing::Arena(a) => {
                let s = a.blocks();
                a.lemma_recorded(p);
                lemma_blocks_first(s, p);
                lemma_under_block(s, p);
            },
            Backing::Inline { bytes } => {
                let a = inline_vals(bytes@);
                let key = self.key(p);
                let (s, t) = (a.skip(p), a.skip(q));
                assert(s[0] == a[p]);
                assert(s.contains(a[p]));
                assert(self.tail(p).contains(a[p]) && hi(a[p]) == key);
                lemma_under_some(self.tail(p), key);
                assert forall|v: u32| #[trigger] self.tail(p).contains(v) implies hi(v) >= key by {
                    let i = choose|i: int| 0 <= i < s.len() && s[i] == v;
                    assert(a[p] <= a[p + i]);
                }
                assert forall|v: u32|
                    past(self.tail(p), key).contains(v) == self.tail(q).contains(v) by {
                    if past(self.tail(p), key).contains(v) {
                        let i = choose|i: int| 0 <= i < s.len() && s[i] == v;
                        if p + i < q {
                            assert(self.key(p + i) == key);
                        }
                        assert(t[p + i - q] == v);
                    }
                    if self.tail(q).contains(v) {
                        let i = choose|i: int| 0 <= i < t.len() && t[i] == v;
                        assert(s[q + i - p] == v);
                        assert(self.key(q - 1) == key);
                        assert(a[q] <= a[q + i]);
                    }
                }
                assert(past(self.tail(p), key) =~= self.tail(q));
                assert forall|l: u16|
                    under(self.tail(p), key).contains(l) == under(self.all(), key).contains(l) by {
                    let v = join(key, l);
                    lemma_join(key, l);
                    if a.contains(v) {
                        let i = choose|i: int| 0 <= i < a.len() && a[i] == v;
                        if i < p {
                            assert(a[i] <= a[p - 1]);
                        }
                        assert(s[i - p] == v);
                    }
                    if s.contains(v) {
                        let i = choose|i: int| 0 <= i < s.len() && s[i] == v;
                        assert(a[p + i] == v);
                    }
                }
                assert(under(self.tail(p), key) =~= under(self.all(), key));
            },
            Backing::Empty => {},
        }
    }

    /// The bytes of a group of inline values hold the group.
    proof fn lemma_inline(self, p: int, q: int, n: int, data: Seq<u8>)
        requires
            self.wf(n),
            self matches Backing::Inline { bytes } && data == bytes@.subrange(4 + p * 4, 4 + q * 4),
            0 <= p < n,
            self.starts(p, n),
            self.ends(p, q, n),
        ensures
            payload_ok(data, 0, CT_INLINE, q - p),
            lows(packed_at(data, 0, q - p)).to_set() == under(self.tail(p), self.key(p)),
            hi(packed_at(data, 0, q - p)[0]) == self.key(p),
    {
        let b = self->Inline_bytes@;
        let a = inline_vals(b);
        let (key, t) = (self.key(p), self.tail(p));
        assert forall|i: int| p <= i < q implies hi(#[trigger] a[i]) == hi(a[p]) by {
            assert(self.key(i) == self.key(p));
        }
        lemma_group(b, p, q, data);
        let ids = packed_at(data, 0, q - p);
        assert(ids[0] == a[p]);
        let s = a.skip(p);
        assert forall|l: u16| lows(ids).to_set().contains(l) == under(t, key).contains(l) by {
            lemma_join(key, l);
            let v = join(key, l);
            if lows(ids).contains(l) {
                let i = choose|i: int| 0 <= i < lows(ids).len() && lows(ids)[i] == l;
                assert(ids[i] == a[p + i]);
                assert(self.key(p + i) == key);
                lemma_split(a[p + i]);
                assert(s[i] == v);
            }
            if t.contains(v) {
                let i = choose|i: int| 0 <= i < s.len() && s[i] == v;
                assert(a[p + i] == v);
                if p + i >= q {
                    assert(self.key(q - 1) == key);
                    assert(a[q] <= a[p + i]);
                    assert(hi(a[q - 1]) < hi(a[q]));
                }
                assert(ids[i] == a[p + i]);
                assert(lows(ids)[i] == l);
            }
        }
        assert(lows(ids).to_set() =~= under(t, key));
    }

    proof fn lemma_tail_ends(self, n: int)
        requires
            self.wf(n),
        ensures
            self.tail(0) == self.all(),
            self.tail(n) == Set::<u32>::empty(),
    {
        match self {
            Backing::Standard { bytes, data_base } => {
                let s = std_blocks(bytes@);
                assert(s.skip(0) =~= s);
                assert(s.skip(n).len() == 0);
            },
            Backing::Arena(a) => {
                let s = a.blocks();
                assert(s.skip(0) =~= s);
                assert(s.skip(n).len() == 0);
            },
            Backing::Inline { bytes } => {
                let s = inline_vals(bytes@);
                assert(s.skip(0) =~= s);
                assert(s.skip(n).len() == 0);
            },
            Backing::Empty => {},
        }
        assert(self.tail(n) =~= Set::<u32>::empty());
    }
}

impl<'a> ContainerCursor<'a> {
    /// The position is at a container's start, and that container is live.
    pub closed spec fn wf(self) -> bool {
        &&& self.backing.wf(self.n as int)
        &&& self.pos <= self.n
        &&& self.backing.starts(self.pos as int, self.n as int)
        &&& self.live matches Some(m) ==> self.pos < self.n ==> m@.contains(
            self.backing.key(self.pos as int),
        )
    }

    /// Keys the cursor does not skip.
    spec fn passes(self, key: u16) -> bool {
        self.live matches Some(m) ==> m@.contains(key)
    }

    /// The values still to come.
    pub closed spec fn rest(self) -> Set<u32> {
        let t = self.backing.tail(self.pos as int);
        match self.live {
            Some(m) => masked(t, m@),
            None => t,
        }
    }

    /// All values of the source, before masking.
    pub closed spec fn all(self) -> Set<u32> {
        self.backing.all()
    }

    /// Stored bytes of the source's container under `key`.
    pub closed spec fn stored(self, key: u16) -> int {
        self.backing.stored(key)
    }

    /// Form of the source's container under `key`.
    pub closed spec fn form(self, key: u16) -> u8 {
        self.backing.form(key)
    }

    /// Containers or values not yet passed.
    pub closed spec fn left(self) -> nat {
        (self.n - self.pos) as nat
    }

    /// The same source and mask.
    pub closed spec fn same_source(self, other: ContainerCursor<'a>) -> bool {
        &&& self.backing == other.backing
        &&& self.live == other.live
        &&& self.n == other.n
    }

    pub proof fn lemma_self(self)
        ensures
            self.same_source(self),
    {
    }

    pub proof fn lemma_chain(self, mid: ContainerCursor<'a>, other: ContainerCursor<'a>)
        requires
            self.same_source(mid),
            mid.same_source(other),
        ensures
            self.same_source(other),
    {
    }

    pub proof fn lemma_same_source(self, other: ContainerCursor<'a>)
        requires
            self.same_source(other),
        ensures
            self.all() == other.all(),
            forall|key: u16| self.stored(key) == other.stored(key),
            forall|key: u16| self.form(key) == other.form(key),
    {
    }

    /// Cursor over all containers of a leaf.
    pub fn new(view: &FrozenBitmapView<'a>) -> (r: Self)
        ensures
            r.wf(),
            r.rest() == view@,
            r.all() == view@,
            forall|key: u16| #[trigger] r.stored(key) == frozen_stored(view.src(), key),
            forall|key: u16| #[trigger] r.form(key) == frozen_form(view.src(), key),
    {
        ContainerCursor::unmasked(view)
    }

    fn unmasked(view: &FrozenBitmapView<'a>) -> (r: Self)
        ensures
            r.wf(),
            r.live is None,
            r.rest() == view@,
            r.all() == view@,
            forall|key: u16| #[trigger] r.stored(key) == frozen_stored(view.src(), key),
            forall|key: u16| #[trigger] r.form(key) == frozen_form(view.src(), key),
    {
        let bytes: &'a [u8] = view.as_bytes();
        let r: ContainerCursor<'a> = match view.standard_dims() {
            Some((n, data_base)) => ContainerCursor {
                backing: Backing::Standard { bytes, data_base },
                n,
                pos: 0,
                live: None,
            },
            None => ContainerCursor {
                backing: Backing::Inline { bytes },
                n: read_u16(bytes, 2) as usize,
                pos: 0,
                live: None,
            },
        };
        proof {
            r.backing.lemma_tail_ends(r.n as int);
        }
        r
    }

    /// Like [`new`](Self::new), but skips container keys absent from `live`.
    pub fn new_live(view: &FrozenBitmapView<'a>, live: &'a KeyMask) -> (r: Self)
        ensures
            r.wf(),
            r.rest() == masked(view@, live@),
            r.all() == view@,
            forall|key: u16| #[trigger] r.stored(key) == frozen_stored(view.src(), key),
            forall|key: u16| #[trigger] r.form(key) == frozen_form(view.src(), key),
    {
        let mut r: ContainerCursor<'a> = ContainerCursor::unmasked(view);
        let ghost c = r;
        r.live = Some(live);
        r.skip_dead();
        proof {
            assert forall|key: u16| #[trigger] r.stored(key) == frozen_stored(view.src(), key) by {
                assert(c.stored(key) == frozen_stored(view.src(), key));
            }
            assert forall|key: u16| #[trigger] r.form(key) == frozen_form(view.src(), key) by {
                assert(c.form(key) == frozen_form(view.src(), key));
            }
        }
        r
    }

    /// Read an arena as an ordered container source.
    pub fn from_arena(arena: &'a OpArena) -> (r: Self)
        requires
            arena.wf(),
        ensures
            r.wf(),
            r.rest() == arena.set(),
            r.all() == arena.set(),
            forall|key: u16| #[trigger] r.stored(key) == arena_stored(*arena, key),
            forall|key: u16| #[trigger] r.form(key) == arena_form(*arena, key),
    {
        let r: ContainerCursor<'a> = ContainerCursor {
            backing: Backing::Arena(arena),
            n: arena.container_count(),
            pos: 0,
            live: None,
        };
        proof {
            r.backing.lemma_tail_ends(r.n as int);
        }
        r
    }

    /// A cursor over nothing.
    pub fn empty() -> (r: Self)
        ensures
            r.wf(),
            r.rest() == Set::<u32>::empty(),
            r.all() == Set::<u32>::empty(),
            forall|key: u16| #[trigger] r.stored(key) == 0,
            forall|key: u16| #[trigger] r.form(key) == 0,
    {
        ContainerCursor { backing: Backing::Empty, n: 0, pos: 0, live: None }
    }

    /// Key at the position.
    fn raw_key(&self) -> (r: u16)
        requires
            self.backing.wf(self.n as int),
            self.pos < self.n,
        ensures
            r == self.backing.key(self.pos as int),
    {
        match &self.backing {
            Backing::Standard { bytes, .. } => {
                assert(bytes@.len() == bytes.len());
                read_key(bytes, self.pos)
            },
            Backing::Inline { bytes } => {
                assert(bytes@.len() == bytes.len());
                (read_u32(bytes, 4 + self.pos * 4) / 65536) as u16
            },
            Backing::Arena(a) => a.container_key(self.pos),
            Backing::Empty => 0,
        }
    }

    /// Position past the container at the position.
    fn raw_end(&self) -> (r: usize)
        requires
            self.backing.wf(self.n as int),
            self.pos < self.n,
        ensures
            self.backing.ends(self.pos as int, r as int, self.n as int),
    {
        match &self.backing {
            Backing::Inline { bytes } => {
                assert(bytes@.len() == bytes.len());
                let ghost a = inline_vals(bytes@);
                let key: u16 = (read_u32(bytes, 4 + self.pos * 4) / 65536) as u16;
                let mut end: usize = self.pos + 1;
                while end < self.n && (read_u32(bytes, 4 + end * 4) / 65536) as u16 == key
                    invariant
                        self.pos < end <= self.n,
                        self.backing == (Backing::Inline { bytes: *bytes }),
                        self.backing.wf(self.n as int),
                        bytes@.len() == bytes.len(),
                        a == inline_vals(bytes@),
                        key == hi(a[self.pos as int]),
                        forall|i: int|
                            self.pos <= i < end ==> #[trigger] self.backing.key(i) == key,
                    decreases self.n - end,
                {
                    assert(self.backing.key(end as int) == key);
                    end = end + 1;
                }
                proof {
                    if end < self.n {
                        assert(self.backing.key(end - 1) == key);
                        assert(a[end - 1] < a[end as int]);
                    }
                }
                end
            },
            _ => self.pos + 1,
        }
    }

    /// Step past the container at the position, live or not.
    fn advance_raw(&mut self)
        requires
            old(self).backing.wf(old(self).n as int),
            old(self).pos < old(self).n,
            old(self).backing.starts(old(self).pos as int, old(self).n as int),
        ensures
            final(self).same_source(*old(self)),
            final(self).backing.starts(final(self).pos as int, final(self).n as int),
            old(self).pos < final(self).pos <= final(self).n,
            final(self).backing.tail(final(self).pos as int) == past(
                old(self).backing.tail(old(self).pos as int),
                old(self).backing.key(old(self).pos as int),
            ),
            is_first(
                old(self).backing.tail(old(self).pos as int),
                old(self).backing.key(old(self).pos as int),
            ),
    {
        let end: usize = self.raw_end();
        proof {
            self.backing.lemma_tail(self.pos as int, end as int, self.n as int);
        }
        self.pos = end;
    }

    /// Step past dead keys, so that the position is at a live one or at the end.
    fn skip_dead(&mut self)
        requires
            old(self).backing.wf(old(self).n as int),
            old(self).pos <= old(self).n,
            old(self).backing.starts(old(self).pos as int, old(self).n as int),
        ensures
            final(self).wf(),
            final(self).same_source(*old(self)),
            final(self).rest() == old(self).rest(),
            old(self).pos <= final(self).pos,
    {
        if let Some(mask) = self.live {
            while self.pos < self.n
                invariant_except_break
                    self.backing.wf(self.n as int),
                    self.pos <= self.n,
                    old(self).pos <= self.pos,
                    self.backing.starts(self.pos as int, self.n as int),
                    self.same_source(*old(self)),
                    self.live == Some(mask),
                    self.rest() == old(self).rest(),
                ensures
                    self.wf(),
                    self.same_source(*old(self)),
                    self.rest() == old(self).rest(),
                    old(self).pos <= self.pos,
                decreases self.n - self.pos,
            {
                let key: u16 = self.raw_key();
                if mask.contains(key) {
                    break;
                }
                let ghost before = self.backing.tail(self.pos as int);
                let ghost prior = *self;
                self.advance_raw();
                proof {
                    let after = self.backing.tail(self.pos as int);
                    assert forall|v: u32|
                        masked(before, mask@).contains(v) == masked(after, mask@).contains(v) by {}
                    assert(masked(before, mask@) =~= masked(after, mask@));
                }
            }
        }
    }

    /// Key of the current container, or `None` when exhausted.
    pub fn peek_key(&self) -> (r: Option<u16>)
        requires
            self.wf(),
        ensures
            r is None <==> self.rest() == Set::<u32>::empty(),
            r matches Some(k) ==> is_first(self.rest(), k),
    {
        proof {
            self.lemma_here();
        }
        if self.pos >= self.n {
            return None;
        }
        Some(self.raw_key())
    }

    /// What the position says of the values still to come.
    proof fn lemma_here(self)
        requires
            self.wf(),
        ensures
            self.pos == self.n <==> self.rest() == Set::<u32>::empty(),
            self.pos < self.n ==> is_first(self.rest(), self.backing.key(self.pos as int)),
            self.pos < self.n ==> under(self.rest(), self.backing.key(self.pos as int)) == under(
                self.all(),
                self.backing.key(self.pos as int),
            ),
    {
        self.backing.lemma_tail_ends(self.n as int);
        let t = self.backing.tail(self.pos as int);
        if self.pos < self.n {
            let key = self.backing.key(self.pos as int);
            let q = self.backing.lemma_end(self.pos as int, self.n as int);
            self.backing.lemma_tail(self.pos as int, q, self.n as int);
            assert forall|l: u16| under(self.rest(), key).contains(l) == under(t, key).contains(l) by {
                lemma_join(key, l);
            }
            assert(under(self.rest(), key) =~= under(t, key));
            lemma_under_some(self.rest(), key);
            let v = choose|v: u32| #[trigger] self.rest().contains(v) && hi(v) == key;
            assert(self.rest().contains(v));
        } else {
            assert(self.rest() =~= Set::<u32>::empty());
        }
    }
}

impl<'a> Backing<'a> {
    /// Every container has an end.
    proof fn lemma_end(self, p: int, n: int) -> (q: int)
        requires
            self.wf(n),
            0 <= p < n,
        ensures
            self.ends(p, q, n),
    {
        if self is Inline {
            self.lemma_group_end(p, p + 1, n)
        } else {
            p + 1
        }
    }

    proof fn lemma_group_end(self, p: int, q: int, n: int) -> (e: int)
        requires
            self.wf(n),
            self is Inline,
            0 <= p < q <= n,
            forall|i: int| p <= i < q ==> #[trigger] self.key(i) == self.key(p),
        ensures
            self.ends(p, e, n),
        decreases n - q,
    {
        if q < n && self.key(q) == self.key(p) {
            self.lemma_group_end(p, q + 1, n)
        } else {
            if let Backing::Inline { bytes } = self {
                let a = inline_vals(bytes@);
                if q < n {
                    assert(self.key(q - 1) == self.key(p));
                    assert(a[q - 1] < a[q]);
                }
            }
            q
        }
    }
}

impl<'a> ContainerCursor<'a> {
    /// Current container, without advancing.
    #[verifier::rlimit(40)]
    pub fn get(&self) -> (r: ContainerRef<'a>)
        requires
            self.wf(),
            self.rest() != Set::<u32>::empty(),
        ensures
            r.wf(),
            is_first(self.rest(), r.key),
            r.lows() == under(self.rest(), r.key),
            r.lows() == under(self.all(), r.key),
            r.stored() == self.stored(r.key),
            r.typ == self.form(r.key),
            r.card == r.lows().len(),
    {
        proof {
            self.lemma_here();
        }
        let r: ContainerRef<'a> = match &self.backing {
            Backing::Standard { bytes, data_base } => {
                let ghost b = bytes@;
                let ghost p = self.pos as int;
                assert(b.len() == bytes.len());
                let e: IndexEntry = read_index_entry(bytes, self.n, self.pos);
                proof {
                    lemma_std(b);
                    assert(e == std_entry(b, p));
                    assert(std_payload_ok(b, p));
                    lemma_under_block(std_blocks(b), p);
                }
                let start: usize = *data_base + e.data_offset as usize;
                let size: usize = if e.typ == CT_ARRAY {
                    e.cardinality as usize * 2
                } else if e.typ == CT_BITMAP {
                    BITMAP_BYTES
                } else {
                    2 + 4 * (read_u16(bytes, start) as usize)
                };
                let data: &'a [u8] = slice_subrange(bytes, start, start + size);
                proof {
                    lemma_payload_same(b, start as int, data@, 0, e.typ, e.cardinality as int);
                    let i = choose|i: int|
                        0 <= i < std_n(b) && (#[trigger] std_entry(b, i)).key == e.key;
                    assert(std_entry(b, p).key == e.key);
                    if i < p {
                        assert(key_at(b, i) < key_at(b, p));
                    } else if p < i {
                        assert(key_at(b, p) < key_at(b, i));
                    }
                }
                ContainerRef { key: e.key, typ: e.typ, card: e.cardinality, data }
            },
            Backing::Inline { bytes } => {
                let ghost b = bytes@;
                let ghost p = self.pos as int;
                assert(b.len() == bytes.len());
                let end: usize = self.raw_end();
                let key: u16 = self.raw_key();
                let card: usize = end - self.pos;
                let data: &'a [u8] = slice_subrange(bytes, 4 + self.pos * 4, 4 + end * 4);
                proof {
                    self.backing.lemma_inline(p, end as int, self.n as int, data@);
                    lemma_payload_len(data@, 0, CT_INLINE, card as int);
                }
                ContainerRef { key, typ: CT_INLINE, card: card as u32, data }
            },
            Backing::Arena(a) => {
                let r: ContainerRef<'a> = a.container_ref(self.pos);
                proof {
                    let p = self.pos as int;
                    a.lemma_recorded(p);
                    a.lemma_stored(p);
                    lemma_under_block(a.blocks(), p);
                    let j = choose|j: int|
                        0 <= j < a.blocks().len() && (#[trigger] a.blocks()[j]).key == r.key;
                    assert(a.blocks()[p].key == r.key);
                    if j < p {
                        assert(a.blocks()[j].key < a.blocks()[p].key);
                    } else if p < j {
                        assert(a.blocks()[p].key < a.blocks()[j].key);
                    }
                }
                r
            },
            Backing::Empty => {
                assert(false);
                ContainerRef { key: 0, typ: 0, card: 0, data: &[] }
            },
        };
        proof {
            lemma_payload_len(r.data@, 0, r.typ, r.card as int);
        }
        r
    }

    /// Advance past the current container, then rest on the next live key.
    pub fn advance(&mut self)
        requires
            old(self).wf(),
            old(self).rest() != Set::<u32>::empty(),
        ensures
            final(self).wf(),
            final(self).same_source(*old(self)),
            forall|key: u16|
                is_first(old(self).rest(), key) ==> final(self).rest() == #[trigger] past(
                    old(self).rest(),
                    key,
                ),
            final(self).left() < old(self).left(),
    {
        proof {
            self.lemma_here();
        }
        let ghost key = self.backing.key(self.pos as int);
        self.advance_raw();
        let ghost mid = *self;
        proof {
            assert(mid.rest() =~= past(old(self).rest(), key));
            assert forall|k: u16| is_first(old(self).rest(), k) implies k == key by {
                lemma_under_some(old(self).rest(), k);
                lemma_under_some(old(self).rest(), key);
            }
        }
        self.skip_dead();
    }

    /// Advance until the current key is at least `target`; tells whether it is `target`.
    /// Dead keys are skipped, so a hit is always a live key.
    pub fn advance_to(&mut self, target: u16) -> (r: bool)
        requires
            old(self).wf(),
        ensures
            final(self).wf(),
            final(self).same_source(*old(self)),
            final(self).rest() == since(old(self).rest(), target),
            r == (under(old(self).rest(), target).len() > 0),
            r ==> is_first(final(self).rest(), target),
            final(self).left() <= old(self).left(),
    {
        assert(since(self.rest(), target) =~= since(old(self).rest(), target));
        while self.pos < self.n && self.raw_key() < target
            invariant
                self.backing.wf(self.n as int),
                self.pos <= self.n,
                old(self).pos <= self.pos,
                self.backing.starts(self.pos as int, self.n as int),
                self.same_source(*old(self)),
                since(self.rest(), target) == since(old(self).rest(), target),
            decreases self.n - self.pos,
        {
            let ghost before = self.rest();
            let ghost t = self.backing.tail(self.pos as int);
            self.advance_raw();
            proof {
                assert forall|v: u32|
                    since(before, target).contains(v) == since(self.rest(), target).contains(v) by {}
                assert(since(before, target) =~= since(self.rest(), target));
            }
        }
        let ghost mid = *self;
        self.skip_dead();
        let here: Option<u16> = self.peek_key();
        let hit: bool = match here {
            Some(k) => k == target,
            None => false,
        };
        proof {
            let s = self.rest();
            self.lemma_here();
            assert(mid.rest() =~= since(mid.rest(), target)) by {
                mid.backing.lemma_tail_ends(mid.n as int);
                if mid.pos < mid.n {
                    let q = mid.backing.lemma_end(mid.pos as int, mid.n as int);
                    mid.backing.lemma_tail(mid.pos as int, q, mid.n as int);
                }
            }
            lemma_under_some(old(self).rest(), target);
            lemma_under_some(s, target);
            if hit {
                let v = choose|v: u32| #[trigger] s.contains(v) && hi(v) == target;
                assert(old(self).rest().contains(v));
            }
            if under(old(self).rest(), target).len() > 0 {
                let v = choose|v: u32| #[trigger] old(self).rest().contains(v) && hi(v) == target;
                assert(since(old(self).rest(), target).contains(v));
                assert(s.contains(v));
                let k = here->Some_0;
                lemma_under_some(s, k);
                let w = choose|w: u32| #[trigger] s.contains(w) && hi(w) == k;
                assert(since(old(self).rest(), target).contains(w));
            }
        }
        hit
    }
}

/// The packed values of a group are a key group of their own.
proof fn lemma_group(b: Seq<u8>, p: int, q: int, data: Seq<u8>)
    requires
        inline_ok(b),
        0 <= p < q <= u16_at(b, 2),
        data == b.subrange(4 + p * 4, 4 + q * 4),
        forall|i: int| p <= i < q ==> hi(#[trigger] inline_vals(b)[i]) == hi(inline_vals(b)[p]),
    ensures
        payload_ok(data, 0, CT_INLINE, q - p),
        forall|i: int|
            0 <= i < q - p ==> #[trigger] packed_at(data, 0, q - p)[i] == inline_vals(b)[p + i],
{
    let a = inline_vals(b);
    let ids = packed_at(data, 0, q - p);
    assert forall|i: int| 0 <= i < q - p implies #[trigger] ids[i] == a[p + i] by {
        assert(u32_at(data, 4 * i) == u32_at(b, 4 + 4 * (p + i)));
    }
    assert forall|i: int, j: int| 0 <= i < j < ids.len() implies ids[i] < ids[j] by {
        assert(ids[i] == a[p + i] && ids[j] == a[p + j]);
    }
    assert forall|i: int, j: int| 0 <= i < ids.len() && 0 <= j < ids.len() implies hi(ids[i]) == hi(
        ids[j],
    ) by {
        assert(ids[i] == a[p + i] && ids[j] == a[p + j]);
    }
}

} // verus!
