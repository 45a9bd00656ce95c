//! Walking the inputs of an op together, one key at a time.
use vstd::prelude::*;

use crate::accum::{weight, weights};
use crate::cursor::{ContainerCursor, ContainerRef};
use crate::model::{
    hi, is_first, join, lemma_join, lemma_set16, lemma_under_some, past, since, under,
};
use crate::source::Inputs;

verus! {

// --- cursors over inputs ---------------------------------------------------------

/// `c` has all of `s` from block `lo` on still to come, and nothing outside `s`.
pub open spec fn tracks(c: ContainerCursor, s: Set<u32>, lo: int) -> bool {
    &&& c.wf()
    &&& forall|v: u32| #[trigger] c.rest().contains(v) ==> s.contains(v)
    &&& forall|v: u32| #[trigger] s.contains(v) && hi(v) >= lo ==> c.rest().contains(v)
}

/// Under a key that is still to come, a tracking cursor has all of the set.
pub proof fn lemma_tracks(c: ContainerCursor, s: Set<u32>, lo: int, key: u16)
    requires
        tracks(c, s, lo),
        lo <= key,
    ensures
        under(c.rest(), key) == under(s, key),
{
    assert forall|l: u16| under(c.rest(), key).contains(l) == under(s, key).contains(l) by {
        lemma_join(key, l);
        assert(c.rest().contains(join(key, l)) == s.contains(join(key, l)));
    }
    assert(under(c.rest(), key) =~= under(s, key));
}

/// `c` reads input `i`.
pub open spec fn sourced<I: Inputs + ?Sized>(c: ContainerCursor, inputs: &I, i: int) -> bool {
    &&& forall|key: u16| #[trigger] c.stored(key) == inputs.stored_at(i, key)
    &&& forall|key: u16| #[trigger] c.form(key) == inputs.form_at(i, key)
}

/// A cursor that has moved on still reads the same input.
pub proof fn lemma_sourced<'a, I: Inputs + ?Sized>(
    c: ContainerCursor<'a>,
    d: ContainerCursor<'a>,
    inputs: &I,
    i: int,
)
    requires
        sourced(c, inputs, i),
        d.same_source(c),
    ensures
        sourced(d, inputs, i),
{
    d.lemma_same_source(c);
    assert forall|key: u16| #[trigger] d.stored(key) == inputs.stored_at(i, key) by {
        assert(c.stored(key) == inputs.stored_at(i, key));
    }
    assert forall|key: u16| #[trigger] d.form(key) == inputs.form_at(i, key) by {
        assert(c.form(key) == inputs.form_at(i, key));
    }
}

/// Smallest current key across cursors, or `None` when all are exhausted.
pub fn min_key(cursors: &Vec<ContainerCursor>) -> (r: Option<u16>)
    requires
        forall|j: int| 0 <= j < cursors.len() ==> (#[trigger] cursors@[j]).wf(),
    ensures
        match r {
            None => forall|j: int|
                0 <= j < cursors.len() ==> (#[trigger] cursors@[j]).rest() == Set::<u32>::empty(),
            Some(k) => {
                &&& exists|j: int| 0 <= j < cursors.len() && is_first((#[trigger] cursors@[j]).rest(), k)
                &&& forall|j: int, v: u32|
                    0 <= j < cursors.len() && #[trigger] cursors@[j].rest().contains(v) ==> hi(v) >= k
            },
        },
{
    let mut best: Option<u16> = None;
    let mut i: usize = 0;
    while i < cursors.len()
        invariant
            i <= cursors.len(),
            forall|j: int| 0 <= j < cursors.len() ==> (#[trigger] cursors@[j]).wf(),
            match best {
                None => forall|j: int|
                    0 <= j < i ==> (#[trigger] cursors@[j]).rest() == Set::<u32>::empty(),
                Some(k) => {
                    &&& exists|j: int| 0 <= j < i && is_first((#[trigger] cursors@[j]).rest(), k)
                    &&& forall|j: int, v: u32|
                        0 <= j < i && #[trigger] cursors@[j].rest().contains(v) ==> hi(v) >= k
                },
            },
        decreases cursors.len() - i,
    {
        let c: &ContainerCursor = &cursors[i];
        match c.peek_key() {
            None => {},
            Some(k) => {
                let smaller: bool = match best {
                    None => true,
                    Some(b) => k < b,
                };
                if smaller {
                    best = Some(k);
                    assert(is_first(cursors@[i as int].rest(), k));
                }
            },
        }
        i = i + 1;
    }
    best
}

/// A tracking cursor that has moved on to `key` tracks what lies past it.
pub proof fn lemma_tracks_on(c: ContainerCursor, d: ContainerCursor, s: Set<u32>, lo: int, key: u16)
    requires
        tracks(c, s, lo),
        lo <= key,
        d.wf(),
        d.rest() == c.rest() || d.rest() == since(c.rest(), key) || d.rest() == past(c.rest(), key),
    ensures
        tracks(d, s, key + 1),
{
}

/// The values that some container holds.
pub open spec fn refs_any(refs: Seq<ContainerRef>) -> Set<u16> {
    Set::new(|l: u16| exists|i: int| 0 <= i < refs.len() && (#[trigger] refs[i]).lows().contains(l))
}

/// The values that every container holds.
pub open spec fn refs_all(refs: Seq<ContainerRef>) -> Set<u16> {
    Set::new(
        |l: u16| forall|i: int| 0 <= i < refs.len() ==> (#[trigger] refs[i]).lows().contains(l),
    )
}

/// Every container is a valid one.
pub open spec fn refs_ok(refs: Seq<ContainerRef>) -> bool {
    forall|i: int|
        0 <= i < refs.len() ==> (#[trigger] refs[i]).wf() && refs[i].card == refs[i].lows().len()
}

/// Every cursor is a valid one.
pub open spec fn cursors_ok(s: Seq<ContainerCursor>) -> bool {
    forall|j: int| 0 <= j < s.len() ==> (#[trigger] s[j]).wf()
}

/// `cr` is what `c` has under `key`.
pub open spec fn is_ref(cr: ContainerRef, c: ContainerCursor, key: u16) -> bool {
    &&& cr.lows() == under(c.rest(), key)
    &&& cr.typ == c.form(key)
    &&& cr.stored() == c.stored(key)
}

/// `d` is `c`, possibly moved on to `key`.
pub open spec fn moved<'a>(c: ContainerCursor<'a>, d: ContainerCursor<'a>, key: u16) -> bool {
    &&& d.wf()
    &&& d.same_source(c)
    &&& d.rest() == c.rest() || d.rest() == since(c.rest(), key) || d.rest() == past(c.rest(), key)
}

/// Every cursor has something under `key`.
pub open spec fn all_under(s: Seq<ContainerCursor>, key: u16) -> bool {
    forall|j: int| 0 <= j < s.len() ==> under((#[trigger] s[j]).rest(), key).len() > 0
}

/// Move every cursor on to `key` and collect what they have there, until one has
/// nothing; tells whether all had something.
pub fn gather_all<'a>(
    cursors: &mut Vec<ContainerCursor<'a>>,
    key: u16,
    refs: &mut Vec<ContainerRef<'a>>,
) -> (r: bool)
    requires
        cursors_ok(old(cursors)@),
        refs_ok(old(refs)@),
    ensures
        final(cursors).len() == old(cursors).len(),
        forall|j: int|
            0 <= j < old(cursors).len() ==> moved(
                #[trigger] old(cursors)@[j],
                final(cursors)@[j],
                key,
            ),
        r == all_under(old(cursors)@, key),
        refs_ok(final(refs)@),
        r ==> {
            &&& final(refs).len() == old(refs).len() + old(cursors).len()
            &&& forall|k: int|
                0 <= k < old(refs).len() ==> #[trigger] final(refs)@[k] == old(refs)@[k]
            &&& forall|j: int|
                0 <= j < old(cursors).len() ==> is_ref(
                    final(refs)@[old(refs).len() + j],
                    #[trigger] old(cursors)@[j],
                    key,
                )
        },
{
    let n: usize = cursors.len();
    let ghost c0 = cursors@;
    let ghost r0 = refs@;
    let mut j: usize = 0;
    while j < n
        invariant
            j <= n,
            n == cursors.len(),
            c0 == old(cursors)@,
            r0 == old(refs)@,
            c0.len() == n,
            cursors_ok(c0),
            forall|k: int| 0 <= k < j ==> moved(#[trigger] c0[k], cursors@[k], key),
            forall|k: int| j <= k < n ==> #[trigger] cursors@[k] == c0[k],
            forall|k: int| 0 <= k < j ==> under((#[trigger] c0[k]).rest(), key).len() > 0,
            refs_ok(refs@),
            refs.len() == r0.len() + j,
            forall|k: int| 0 <= k < r0.len() ==> #[trigger] refs@[k] == r0[k],
            forall|k: int|
                0 <= k < j ==> is_ref(refs@[r0.len() + k], #[trigger] c0[k], key),
        decreases n - j,
    {
        assert(cursors@[j as int] == c0[j as int]);
        let hit: bool = cursors[j].advance_to(key);
        assert(moved(c0[j as int], cursors@[j as int], key));
        if !hit {
            assert forall|k: int| 0 <= k < n implies moved(#[trigger] c0[k], cursors@[k], key) by {
                if k > j {
                    assert(cursors@[k] == c0[k]);
                    c0[k].lemma_self();
                }
            }
            return false;
        }
        proof {
            lemma_under_some(cursors@[j as int].rest(), key);
            let s = c0[j as int].rest();
            assert forall|l: u16|
                under(since(s, key), key).contains(l) == under(s, key).contains(l) by {
                lemma_join(key, l);
            }
            assert(under(since(s, key), key) =~= under(s, key));
        }
        let cr: ContainerRef<'a> = cursors[j].get();
        proof {
            lemma_first(cursors@[j as int].rest(), key, cr.key);
            cursors@[j as int].lemma_same_source(c0[j as int]);
            assert(is_ref(cr, c0[j as int], key));
        }
        refs.push(cr);
        j = j + 1;
    }
    true
}

/// A set has one first key.
pub proof fn lemma_first(s: Set<u32>, a: u16, b: u16)
    requires
        is_first(s, a),
        is_first(s, b),
    ensures
        a == b,
        s != Set::<u32>::empty(),
{
    lemma_under_some(s, a);
    lemma_under_some(s, b);
    let v = choose|v: u32| #[trigger] s.contains(v) && hi(v) == a;
    let w = choose|w: u32| #[trigger] s.contains(w) && hi(w) == b;
    assert(s.contains(v) && s.contains(w));
}

/// The containers that the first `n` cursors have under `key`, in order, are `refs`.
pub open spec fn lined_up(s: Seq<ContainerCursor>, n: int, key: u16, refs: Seq<ContainerRef>) -> bool
    decreases n,
{
    if n <= 0 {
        refs.len() == 0
    } else if under(s[n - 1].rest(), key).len() == 0 {
        lined_up(s, n - 1, key, refs)
    } else {
        &&& refs.len() > 0
        &&& is_ref(refs.last(), s[n - 1], key)
        &&& lined_up(s, n - 1, key, refs.drop_last())
    }
}

/// What `n` cursors had under `key`, in order, is `refs`.
pub open spec fn gathered(s: Seq<ContainerCursor>, n: int, key: u16, refs: Seq<ContainerRef>) -> bool {
    &&& refs_ok(refs)
    &&& lined_up(s, n, key, refs)
    &&& refs.len() <= n
    &&& forall|l: u16| #[trigger]
        refs_any(refs).contains(l) <==> exists|j: int|
            0 <= j < n && under((#[trigger] s[j]).rest(), key).contains(l)
    &&& refs.len() == n <==> forall|j: int|
        0 <= j < n ==> under((#[trigger] s[j]).rest(), key).len() > 0
    &&& refs.len() == n ==> forall|j: int|
        0 <= j < n ==> refs[j].lows() == under((#[trigger] s[j]).rest(), key)
    &&& forall|i: int| 0 <= i < refs.len() ==> (#[trigger] refs[i]).lows().len() > 0
}

proof fn lemma_gathered_none(s: Seq<ContainerCursor>, key: u16)
    ensures
        gathered(s, 0, key, Seq::<ContainerRef>::empty()),
{
}

/// One more cursor, with nothing under `key`.
proof fn lemma_gathered_skip(s: Seq<ContainerCursor>, n: int, key: u16, refs: Seq<ContainerRef>)
    requires
        0 <= n < s.len(),
        gathered(s, n, key, refs),
        under(s[n].rest(), key).len() == 0,
    ensures
        gathered(s, n + 1, key, refs),
{
    lemma_set16(under(s[n].rest(), key));
    assert(under(s[n].rest(), key) =~= Set::<u16>::empty());
    assert forall|l: u16| #[trigger] refs_any(refs).contains(l) <==> exists|j: int|
        0 <= j < n + 1 && under((#[trigger] s[j]).rest(), key).contains(l) by {
        if refs_any(refs).contains(l) {
            let j = choose|j: int| 0 <= j < n && under((#[trigger] s[j]).rest(), key).contains(l);
            assert(under(s[j].rest(), key).contains(l));
        }
    }
    assert(!(forall|j: int| 0 <= j < n + 1 ==> under((#[trigger] s[j]).rest(), key).len() > 0)) by {
        assert(under(s[n].rest(), key).len() == 0);
    }
}

/// One more cursor, with a container under `key`.
proof fn lemma_gathered_push(
    s: Seq<ContainerCursor>,
    n: int,
    key: u16,
    refs: Seq<ContainerRef>,
    cr: ContainerRef,
)
    requires
        0 <= n < s.len(),
        gathered(s, n, key, refs),
        cr.wf(),
        cr.card == cr.lows().len(),
        is_ref(cr, s[n], key),
        cr.lows().len() > 0,
    ensures
        gathered(s, n + 1, key, refs.push(cr)),
{
    let t = refs.push(cr);
    assert(t.drop_last() =~= refs);
    assert forall|i: int| 0 <= i < t.len() implies (#[trigger] t[i]).wf() && t[i].card
        == t[i].lows().len() && t[i].lows().len() > 0 by {
        if i < refs.len() {
            assert(t[i] == refs[i]);
        }
    }
    assert forall|l: u16| #[trigger] refs_any(t).contains(l) <==> exists|j: int|
        0 <= j < n + 1 && under((#[trigger] s[j]).rest(), key).contains(l) by {
        if refs_any(t).contains(l) {
            let i = choose|i: int| 0 <= i < t.len() && (#[trigger] t[i]).lows().contains(l);
            if i < refs.len() {
                assert(refs[i] == t[i]);
                assert(refs_any(refs).contains(l));
                let j = choose|j: int| 0 <= j < n && under((#[trigger] s[j]).rest(), key).contains(l);
                assert(under(s[j].rest(), key).contains(l));
            } else {
                assert(under(s[n].rest(), key).contains(l));
            }
        }
        if exists|j: int| 0 <= j < n + 1 && under((#[trigger] s[j]).rest(), key).contains(l) {
            let j = choose|j: int|
                0 <= j < n + 1 && under((#[trigger] s[j]).rest(), key).contains(l);
            if j < n {
                assert(under(s[j].rest(), key).contains(l));
                assert(refs_any(refs).contains(l));
                let i = choose|i: int| 0 <= i < refs.len() && (#[trigger] refs[i]).lows().contains(l);
                assert(t[i] == refs[i]);
            } else {
                assert(t[refs.len() as int] == cr);
            }
        }
    }
    if t.len() == n + 1 {
        assert forall|j: int| 0 <= j < n + 1 implies under((#[trigger] s[j]).rest(), key).len() > 0
            && t[j].lows() == under(s[j].rest(), key) by {
            if j < n {
                assert(t[j] == refs[j]);
            }
        }
    } else {
        let j = choose|j: int| 0 <= j < n && under((#[trigger] s[j]).rest(), key).len() == 0;
        assert(under(s[j].rest(), key).len() == 0);
    }
}

/// Collect the containers under `key`, the smallest key still to come, and move past
/// them.
pub fn gather_min<'a>(cursors: &mut Vec<ContainerCursor<'a>>, key: u16) -> (r: Vec<
    ContainerRef<'a>,
>)
    requires
        cursors_ok(old(cursors)@),
        forall|j: int, v: u32|
            0 <= j < old(cursors).len() && #[trigger] old(cursors)@[j].rest().contains(v) ==> hi(v)
                >= key,
    ensures
        final(cursors).len() == old(cursors).len(),
        forall|j: int|
            0 <= j < old(cursors).len() ==> (#[trigger] final(cursors)@[j]).wf()
                && final(cursors)@[j].rest() == past(old(cursors)@[j].rest(), key)
                && final(cursors)@[j].same_source(old(cursors)@[j]),
        forall|j: int|
            0 <= j < old(cursors).len() ==> (#[trigger] final(cursors)@[j]).left() <= old(
                cursors,
            )@[j].left(),
        forall|j: int|
            0 <= j < old(cursors).len() && under((#[trigger] old(cursors)@[j]).rest(), key).len() > 0
                ==> final(cursors)@[j].left() < old(cursors)@[j].left(),
        gathered(old(cursors)@, old(cursors).len() as int, key, r@),
{
    let n: usize = cursors.len();
    let ghost c0 = cursors@;
    let mut refs: Vec<ContainerRef<'a>> = Vec::new();
    let mut j: usize = 0;
    proof {
        lemma_gathered_none(c0, key);
        assert(refs@ =~= Seq::<ContainerRef>::empty());
    }
    while j < n
        invariant
            j <= n,
            n == cursors.len(),
            c0 == old(cursors)@,
            c0.len() == n,
            cursors_ok(c0),
            forall|k: int, v: u32|
                0 <= k < n && #[trigger] c0[k].rest().contains(v) ==> hi(v) >= key,
            forall|k: int|
                0 <= k < j ==> (#[trigger] cursors@[k]).wf() && cursors@[k].rest() == past(
                    c0[k].rest(),
                    key,
                ) && cursors@[k].left() <= c0[k].left() && cursors@[k].same_source(c0[k]),
            forall|k: int|
                0 <= k < j && under((#[trigger] c0[k]).rest(), key).len() > 0
                    ==> cursors@[k].left() < c0[k].left(),
            forall|k: int| j <= k < n ==> #[trigger] cursors@[k] == c0[k],
            gathered(c0, j as int, key, refs@),
        decreases n - j,
    {
        let ghost s = c0[j as int].rest();
        assert(cursors@[j as int] == c0[j as int]);
        assert forall|v: u32| #[trigger] s.contains(v) implies hi(v) >= key by {
            assert(c0[j as int].rest().contains(v));
        }
        let hit: bool = match cursors[j].peek_key() {
            Some(k) => {
                proof {
                    lemma_under_some(s, k);
                    let v = choose|v: u32| #[trigger] s.contains(v) && hi(v) == k;
                    assert(s.contains(v));
                }
                k == key
            },
            None => false,
        };
        if hit {
            proof {
                lemma_under_some(s, key);
                lemma_first(s, key, key);
            }
            let cr: ContainerRef<'a> = cursors[j].get();
            proof {
                lemma_first(s, key, cr.key);
                lemma_gathered_push(c0, j as int, key, refs@, cr);
            }
            refs.push(cr);
            cursors[j].advance();
            assert(cursors@[j as int].rest() == past(s, key));
        } else {
            proof {
                lemma_under_some(s, key);
                if under(s, key).len() > 0 {
                    let v = choose|v: u32| #[trigger] s.contains(v) && hi(v) == key;
                    assert(s.contains(v));
                    assert(is_first(s, key));
                }
                assert(under(s, key).len() == 0);
                lemma_gathered_skip(c0, j as int, key, refs@);
                assert forall|v: u32| s.contains(v) == past(s, key).contains(v) by {
                    if s.contains(v) && hi(v) == key {
                        assert(exists|w: u32| #[trigger] s.contains(w) && hi(w) == key);
                    }
                }
                assert(past(s, key) =~= s);
                c0[j as int].lemma_self();
            }
        }
        j = j + 1;
    }
    refs
}

/// Move every cursor on to `key` and collect what they have there.
pub fn gather_some<'a>(cursors: &mut Vec<ContainerCursor<'a>>, key: u16) -> (r: Vec<
    ContainerRef<'a>,
>)
    requires
        cursors_ok(old(cursors)@),
    ensures
        final(cursors).len() == old(cursors).len(),
        forall|j: int|
            0 <= j < old(cursors).len() ==> moved(
                #[trigger] old(cursors)@[j],
                final(cursors)@[j],
                key,
            ),
        gathered(old(cursors)@, old(cursors).len() as int, key, r@),
{
    let n: usize = cursors.len();
    let ghost c0 = cursors@;
    let mut refs: Vec<ContainerRef<'a>> = Vec::new();
    let mut j: usize = 0;
    proof {
        lemma_gathered_none(c0, key);
        assert(refs@ =~= Seq::<ContainerRef>::empty());
    }
    while j < n
        invariant
            j <= n,
            n == cursors.len(),
            c0 == old(cursors)@,
            c0.len() == n,
            cursors_ok(c0),
            forall|k: int| 0 <= k < j ==> moved(#[trigger] c0[k], cursors@[k], key),
            forall|k: int| j <= k < n ==> #[trigger] cursors@[k] == c0[k],
            gathered(c0, j as int, key, refs@),
        decreases n - j,
    {
        let ghost s = c0[j as int].rest();
        assert(cursors@[j as int] == c0[j as int]);
        let hit: bool = cursors[j].advance_to(key);
        assert(moved(c0[j as int], cursors@[j as int], key));
        if hit {
            proof {
                lemma_first(cursors@[j as int].rest(), key, key);
                assert forall|l: u16|
                    under(since(s, key), key).contains(l) == under(s, key).contains(l) by {
                    lemma_join(key, l);
                }
                assert(under(since(s, key), key) =~= under(s, key));
            }
            let cr: ContainerRef<'a> = cursors[j].get();
            proof {
                lemma_first(cursors@[j as int].rest(), key, cr.key);
                cursors@[j as int].lemma_same_source(c0[j as int]);
                lemma_gathered_push(c0, j as int, key, refs@, cr);
            }
            refs.push(cr);
        } else {
            proof {
                lemma_gathered_skip(c0, j as int, key, refs@);
            }
        }
        j = j + 1;
    }
    refs
}

/// Tell whether some cursor has anything under `key`, moving cursors on to it.
pub fn any_under<'a>(cursors: &mut Vec<ContainerCursor<'a>>, key: u16) -> (r: bool)
    requires
        cursors_ok(old(cursors)@),
    ensures
        final(cursors).len() == old(cursors).len(),
        forall|j: int|
            0 <= j < old(cursors).len() ==> moved(
                #[trigger] old(cursors)@[j],
                final(cursors)@[j],
                key,
            ),
        r <==> exists|j: int|
            0 <= j < old(cursors).len() && under((#[trigger] old(cursors)@[j]).rest(), key).len() > 0,
{
    let n: usize = cursors.len();
    let ghost c0 = cursors@;
    let mut j: usize = 0;
    while j < n
        invariant
            j <= n,
            n == cursors.len(),
            c0 == old(cursors)@,
            c0.len() == n,
            cursors_ok(c0),
            forall|k: int| 0 <= k < j ==> moved(#[trigger] c0[k], cursors@[k], key),
            forall|k: int| 0 <= k < j ==> under((#[trigger] c0[k]).rest(), key).len() == 0,
            forall|k: int| j <= k < n ==> #[trigger] cursors@[k] == c0[k],
        decreases n - j,
    {
        assert(cursors@[j as int] == c0[j as int]);
        let hit: bool = cursors[j].advance_to(key);
        assert(moved(c0[j as int], cursors@[j as int], key));
        if hit {
            assert forall|k: int| 0 <= k < n implies moved(#[trigger] c0[k], cursors@[k], key) by {
                if k > j {
                    assert(cursors@[k] == c0[k]);
                    c0[k].lemma_self();
                }
            }
            assert(under(c0[j as int].rest(), key).len() > 0);
            return true;
        }
        j = j + 1;
    }
    false
}

/// The cursors in `s` are over the inputs that `order` lists.
pub open spec fn opened<I: Inputs + ?Sized>(inputs: &I, s: Seq<ContainerCursor>, order: Seq<int>) -> bool {
    &&& s.len() == order.len()
    &&& forall|j: int|
        0 <= j < s.len() ==> 0 <= order[j] < inputs.count() && (#[trigger] s[j]).wf() && s[j].rest()
            == inputs.set_at(order[j]) && sourced(s[j], inputs, order[j])
}

/// Cursors over the inputs from `from` on.
pub fn open_from<'a, I: Inputs + ?Sized>(inputs: &'a I, from: usize) -> (r: Vec<ContainerCursor<'a>>)
    requires
        inputs.ok(),
        from <= inputs.count(),
    ensures
        r.len() == inputs.count() - from,
        opened(inputs, r@, Seq::new((inputs.count() - from) as nat, |j: int| from + j)),
{
    let n: usize = inputs.len();
    let mut v: Vec<ContainerCursor<'a>> = Vec::new();
    let mut i: usize = from;
    while i < n
        invariant
            inputs.ok(),
            n == inputs.count(),
            from <= i <= n,
            v.len() == i - from,
            forall|j: int|
                0 <= j < v.len() ==> (#[trigger] v@[j]).wf() && v@[j].rest() == inputs.set_at(
                    from + j,
                ) && sourced(v@[j], inputs, from + j),
        decreases n - i,
    {
        v.push(inputs.cursor(i));
        i = i + 1;
    }
    v
}

/// The input with the fewest containers, the first of several.
pub fn fewest<I: Inputs + ?Sized>(inputs: &I) -> (r: usize)
    requires
        inputs.ok(),
        inputs.count() > 0,
    ensures
        r < inputs.count(),
        forall|i: int| 0 <= i < inputs.count() ==> inputs.width_at(r as int) <= #[trigger] inputs.width_at(i),
        forall|i: int| 0 <= i < r ==> inputs.width_at(r as int) < #[trigger] inputs.width_at(i),
{
    let n: usize = inputs.len();
    let mut seed: usize = 0;
    let mut min_n: usize = inputs.container_count(0);
    let mut i: usize = 1;
    while i < n
        invariant
            inputs.ok(),
            n == inputs.count(),
            1 <= i <= n,
            seed < i,
            min_n == inputs.width_at(seed as int),
            forall|k: int| 0 <= k < i ==> min_n <= #[trigger] inputs.width_at(k),
            forall|k: int| 0 <= k < seed ==> min_n < #[trigger] inputs.width_at(k),
        decreases n - i,
    {
        let w: usize = inputs.container_count(i);
        if w < min_n {
            seed = i;
            min_n = w;
        }
        i = i + 1;
    }
    seed
}

/// Every input but `seed`, ordered by container count.
fn others_order<I: Inputs + ?Sized>(inputs: &I, seed: usize) -> (r: Vec<usize>)
    requires
        inputs.ok(),
        seed < inputs.count(),
    ensures
        forall|j: int| 0 <= j < r.len() ==> (#[trigger] r@[j]) < inputs.count() && r@[j] != seed,
        forall|i: usize| i < inputs.count() && i != seed ==> #[trigger] r@.contains(i),
        r@.no_duplicates(),
        forall|j: int, k: int|
            0 <= j < k < r.len() ==> inputs.width_at((#[trigger] r@[j]) as int) <= inputs.width_at(
                (#[trigger] r@[k]) as int,
            ),
{
    let n: usize = inputs.len();
    let mut order: Vec<usize> = Vec::new();
    let mut i: usize = 0;
    while i < n
        invariant
            inputs.ok(),
            n == inputs.count(),
            i <= n,
            forall|j: int| 0 <= j < order.len() ==> (#[trigger] order@[j]) < i && order@[j] != seed,
            forall|k: usize| k < i && k != seed ==> #[trigger] order@.contains(k),
            order@.no_duplicates(),
            forall|j: int, k: int|
                0 <= j < k < order.len() ==> inputs.width_at((#[trigger] order@[j]) as int)
                    <= inputs.width_at((#[trigger] order@[k]) as int),
        decreases n - i,
    {
        if i != seed {
            let w: usize = inputs.container_count(i);
            let mut at: usize = order.len();
            while at > 0 && inputs.container_count(order[at - 1]) > w
                invariant
                    inputs.ok(),
                    n == inputs.count(),
                    i < n,
                    at <= order.len(),
                    forall|j: int| 0 <= j < order.len() ==> (#[trigger] order@[j]) < i,
                    forall|j: int| at <= j < order.len() ==> inputs.width_at((#[trigger] order@[j]) as int) > w,
                decreases at,
            {
                at = at - 1;
            }
            let ghost before = order@;
            order.insert(at, i);
            proof {
                assert(order@ == before.insert(at as int, i));
                assert forall|k: usize| k < i + 1 && k != seed implies #[trigger] order@.contains(k) by {
                    if k == i {
                        assert(order@[at as int] == i);
                    } else {
                        assert(before.contains(k));
                        let j = choose|j: int| 0 <= j < before.len() && before[j] == k;
                        assert(order@[if j < at { j } else { j + 1 }] == k);
                    }
                }
                if at > 0 {
                    assert(inputs.width_at(before[at - 1] as int) <= w);
                }
                assert forall|j: int, k: int| 0 <= j < k < order.len() implies inputs.width_at(
                    (#[trigger] order@[j]) as int,
                ) <= inputs.width_at((#[trigger] order@[k]) as int) by {
                    let (a, b) = (if j <= at { j } else { j - 1 }, if k <= at { k } else { k - 1 });
                    if j < at && k > at {
                        assert(order@[j] == before[j] && order@[k] == before[k - 1]);
                    } else if k < at {
                        assert(order@[j] == before[j] && order@[k] == before[k]);
                    } else if j > at {
                        assert(order@[j] == before[j - 1] && order@[k] == before[k - 1]);
                    } else if k == at {
                        assert(order@[j] == before[j]);
                        assert(inputs.width_at(before[j] as int) <= inputs.width_at(before[at - 1] as int));
                    } else {
                        assert(order@[k] == before[k - 1]);
                    }
                }
            }
        }
        i = i + 1;
    }
    order
}

/// Cursors over every input but `seed`, the most selective first, and the inputs they
/// are over.
pub fn open_others<'a, I: Inputs + ?Sized>(inputs: &'a I, seed: usize) -> (r: (
    Vec<ContainerCursor<'a>>,
    Ghost<Seq<int>>,
))
    requires
        inputs.ok(),
        seed < inputs.count(),
    ensures
        opened(inputs, r.0@, r.1@),
        forall|j: int| 0 <= j < r.1@.len() ==> #[trigger] r.1@[j] != seed,
        forall|i: int| 0 <= i < inputs.count() && i != seed ==> #[trigger] r.1@.contains(i),
        r.1@.no_duplicates(),
{
    let n: usize = inputs.len();
    let order: Vec<usize> = others_order(inputs, seed);
    let ghost ids = Seq::new(order@.len(), |j: int| order@[j] as int);
    let mut v: Vec<ContainerCursor<'a>> = Vec::new();
    let mut k: usize = 0;
    while k < order.len()
        invariant
            inputs.ok(),
            k <= order.len(),
            v.len() == k,
            forall|j: int| 0 <= j < order.len() ==> (#[trigger] order@[j]) < inputs.count(),
            forall|j: int|
                0 <= j < k ==> (#[trigger] v@[j]).wf() && v@[j].rest() == inputs.set_at(
                    order@[j] as int,
                ) && sourced(v@[j], inputs, order@[j] as int),
        decreases order.len() - k,
    {
        v.push(inputs.cursor(order[k]));
        k = k + 1;
    }
    proof {
        assert forall|i: int| 0 <= i < n && i != seed implies #[trigger] ids.contains(i) by {
            assert(order@.contains(i as usize));
            let j = choose|j: int| 0 <= j < order@.len() && order@[j] == i as usize;
            assert(ids[j] == i);
        }
    }
    (v, Ghost(ids))
}

// --- reordering ------------------------------------------------------------------------

/// The same containers, in whatever order.
pub open spec fn same_refs(a: Seq<ContainerRef>, b: Seq<ContainerRef>) -> bool {
    &&& a.len() == b.len()
    &&& forall|x: ContainerRef| #[trigger] a.contains(x) <==> b.contains(x)
    &&& weights(a, a.len() as int) == weights(b, b.len() as int)
}

/// Another container in place `i`.
proof fn lemma_weights_update(s: Seq<ContainerRef>, i: int, x: ContainerRef, n: int)
    requires
        0 <= i < s.len(),
        0 <= n <= s.len(),
    ensures
        weights(s.update(i, x), n) == weights(s, n) + if i < n {
            weight(x) - weight(s[i])
        } else {
            0
        },
    decreases n,
{
    if n > 0 {
        lemma_weights_update(s, i, x, n - 1);
    }
}

/// Order does not matter to what the containers hold.
pub proof fn lemma_same_refs(a: Seq<ContainerRef>, b: Seq<ContainerRef>)
    requires
        same_refs(a, b),
    ensures
        refs_all(a) == refs_all(b),
        refs_any(a) == refs_any(b),
        refs_ok(a) ==> refs_ok(b),
        forall|i: int| 0 <= i < a.len() ==> b.contains(#[trigger] a[i]),
        forall|i: int| 0 <= i < b.len() ==> a.contains(#[trigger] b[i]),
{
    assert forall|i: int| 0 <= i < a.len() implies b.contains(#[trigger] a[i]) by {
        assert(a.contains(a[i]));
    }
    assert forall|i: int| 0 <= i < b.len() implies a.contains(#[trigger] b[i]) by {
        assert(b.contains(b[i]));
    }
    lemma_holds(a, b);
    lemma_holds(b, a);
    assert(refs_all(a) =~= refs_all(b));
    assert(refs_any(a) =~= refs_any(b));
    if refs_ok(a) {
        assert forall|i: int| 0 <= i < b.len() implies (#[trigger] b[i]).wf() && b[i].card
            == b[i].lows().len() by {
            assert(a.contains(b[i]));
            let k = choose|k: int| 0 <= k < a.len() && a[k] == b[i];
            assert(a[k].wf());
        }
    }
}

proof fn lemma_holds(a: Seq<ContainerRef>, b: Seq<ContainerRef>)
    requires
        forall|i: int| 0 <= i < a.len() ==> b.contains(#[trigger] a[i]),
    ensures
        forall|l: u16| refs_all(b).contains(l) ==> #[trigger] refs_all(a).contains(l),
        forall|l: u16| refs_any(a).contains(l) ==> #[trigger] refs_any(b).contains(l),
{
    assert forall|l: u16| refs_all(b).contains(l) implies #[trigger] refs_all(a).contains(l) by {
        assert forall|i: int| 0 <= i < a.len() implies (#[trigger] a[i]).lows().contains(l) by {
            assert(b.contains(a[i]));
            let k = choose|k: int| 0 <= k < b.len() && b[k] == a[i];
            assert(b[k].lows().contains(l));
        }
    }
    assert forall|l: u16| refs_any(a).contains(l) implies #[trigger] refs_any(b).contains(l) by {
        let i = choose|i: int| 0 <= i < a.len() && (#[trigger] a[i]).lows().contains(l);
        assert(b.contains(a[i]));
        let k = choose|k: int| 0 <= k < b.len() && b[k] == a[i];
        assert(b[k].lows().contains(l));
    }
}

/// Swap two containers.
pub fn swap_refs(refs: &mut Vec<ContainerRef>, i: usize, j: usize)
    requires
        i < old(refs).len(),
        j < old(refs).len(),
    ensures
        same_refs(final(refs)@, old(refs)@),
        final(refs)@ == old(refs)@.update(i as int, old(refs)@[j as int]).update(
            j as int,
            old(refs)@[i as int],
        ),
{
    let a: ContainerRef = refs[i];
    let b: ContainerRef = refs[j];
    refs[i] = b;
    refs[j] = a;
    proof {
        let (s, t) = (old(refs)@, refs@);
        assert forall|x: ContainerRef| #[trigger] t.contains(x) <==> s.contains(x) by {
            if t.contains(x) {
                let k = choose|k: int| 0 <= k < t.len() && t[k] == x;
                let m = if k == i { j as int } else if k == j { i as int } else { k };
                assert(s[m] == x);
            }
            if s.contains(x) {
                let k = choose|k: int| 0 <= k < s.len() && s[k] == x;
                let m = if k == i { j as int } else if k == j { i as int } else { k };
                assert(t[m] == x);
            }
        }
        let n = s.len() as int;
        let u = s.update(i as int, b);
        assert(t =~= u.update(j as int, a));
        lemma_weights_update(s, i as int, b, n);
        lemma_weights_update(u, j as int, a, n);
    }
}

/// Sort containers by cardinality.
pub fn sort_by_card(refs: &mut Vec<ContainerRef>)
    ensures
        same_refs(final(refs)@, old(refs)@),
        forall|i: int, j: int|
            0 <= i < j < final(refs).len() ==> (#[trigger] final(refs)@[i]).card <= (
            #[trigger] final(refs)@[j]).card,
{
    let n: usize = refs.len();
    let mut i: usize = 0;
    while i < n
        invariant
            i <= n,
            n == refs.len(),
            same_refs(refs@, old(refs)@),
            forall|a: int, b: int|
                0 <= a < b < i ==> (#[trigger] refs@[a]).card <= (#[trigger] refs@[b]).card,
        decreases n - i,
    {
        let mut j: usize = i;
        while j > 0 && refs[j - 1].card > refs[j].card
            invariant
                j <= i < n,
                n == refs.len(),
                same_refs(refs@, old(refs)@),
                forall|a: int, b: int|
                    0 <= a < b <= i && b != j ==> (#[trigger] refs@[a]).card <= (
                    #[trigger] refs@[b]).card,
            decreases j,
        {
            let ghost before = refs@;
            swap_refs(refs, j - 1, j);
            proof {
                assert forall|a: int, b: int| 0 <= a < b <= i && b != j - 1 implies (#[trigger] refs@[a]).card
                    <= (#[trigger] refs@[b]).card by {
                    let (p, q) = (
                        if a == j { j - 1 } else if a == j - 1 { j as int } else { a },
                        if b == j { j - 1 } else { b },
                    );
                    assert(refs@[a] == before[p] && refs@[b] == before[q]);
                    if q != j && p < q {
                        assert(before[p].card <= before[q].card);
                    }
                }
            }
            j = j - 1;
        }
        i = i + 1;
    }
}

} // verus!
