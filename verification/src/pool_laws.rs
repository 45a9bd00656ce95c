//! What the mixed pool holds: entries of every container type, so that trees over it take
//! every fold path.
use vstd::prelude::*;

use crate::builder::{array_cost, best_form, run_cost, run_starts};
use crate::corpus::{family, mixed_set, POOL_LEN, POOL_SEED};
use crate::format::{BITMAP_BYTES, CT_ARRAY, CT_BITMAP, CT_RUN};
use crate::model::{hi, join, lemma_join, lemma_split, lo, under};
use crate::tree_laws::law_families_fixed;
use crate::workload::{
    block_ranges, draw, lemma_state_after, low, ranges_set, scatter_set, state_after, step_value,
    steps_set, whole,
};
use crate::workload_laws::{drawn, law_block_runs, law_phase, law_scatter, law_steps};

verus! {

/// The low half of draw `k` of the pool's stream, which starts from `0x5EED_1234`, moved by
/// `shift` around the container.
pub open spec fn pool_low(k: int, shift: int) -> u16 {
    ((draw(0x5EED_1234, k as nat) % 65536 + shift) % 65536) as u16
}

/// A random entry holds, under each of its first `keys` keys, the low halves of `per_key`
/// draws of the stream from draw `from` on and nothing else, moved by `shift`.
pub open spec fn holds_draws(set: Set<u32>, from: int, keys: int, per_key: int, shift: int) -> bool {
    &&& forall|k: int, d: int|
        0 <= k < keys && 0 <= d < per_key ==> set.contains(
            join(k as u16, #[trigger] pool_low(from + k * per_key + d, shift)),
        )
    &&& forall|v: u32| #[trigger]
        set.contains(v) ==> hi(v) < keys && exists|d: int|
            0 <= d < per_key && lo(v) == #[trigger] pool_low(from + hi(v) * per_key + d, shift)
    &&& forall|key: u16|
        key < keys ==> 0 < #[trigger] under(set, key).len() <= per_key
    &&& forall|key: u16| key >= keys ==> #[trigger] under(set, key).len() == 0
}

proof fn lemma_holds_draws(from: nat, keys: int, per_key: int, shift: u32)
    requires
        0 < keys <= 65536,
        0 < per_key,
    ensures
        holds_draws(
            scatter_set(state_after(POOL_SEED, from), 0, keys, per_key, whole(shift)),
            from as int,
            keys,
            per_key,
            shift as int,
        ),
{
    let st = state_after(POOL_SEED, from);
    let w = whole(shift);
    let set = scatter_set(st, 0, keys, per_key, w);
    law_scatter(st, 0, keys, per_key, w);
    assert forall|k: int, d: int| 0 <= k < keys && 0 <= d < per_key implies #[trigger] pool_low(
        from + k * per_key + d,
        shift as int,
    ) == low(draw(st, (k * per_key + d) as nat), w) by {
        lemma_low(from, k, d, per_key, shift);
    }
    assert forall|k: int, d: int| 0 <= k < keys && 0 <= d < per_key implies set.contains(
        join(k as u16, #[trigger] pool_low(from + k * per_key + d, shift as int)),
    ) by {
        assert(set.contains(drawn(st, 0, per_key, w, k, d)));
    }
    assert forall|v: u32| #[trigger] set.contains(v) implies hi(v) < keys && exists|d: int|
        0 <= d < per_key && lo(v) == #[trigger] pool_low(from + hi(v) * per_key + d, shift as int) by {
        let d = choose|d: int|
            0 <= d < per_key && v == #[trigger] drawn(st, 0, per_key, w, hi(v) - 0, d);
        lemma_join(hi(v), low(draw(st, (hi(v) * per_key + d) as nat), w));
        assert(lo(v) == pool_low(from + hi(v) * per_key + d, shift as int));
    }
}

proof fn lemma_low(from: nat, k: int, d: int, per_key: int, shift: u32)
    requires
        0 <= k,
        0 <= d,
        0 <= per_key,
    ensures
        pool_low(from + k * per_key + d, shift as int) == low(
            draw(state_after(POOL_SEED, from), (k * per_key + d) as nat),
            whole(shift),
        ),
{
    assert(0 <= k * per_key) by (nonlinear_arith)
        requires
            0 <= k,
            0 <= per_key,
    ;
    let j = (k * per_key + d) as nat;
    lemma_state_after(POOL_SEED, from, j + 1);
    assert(draw(state_after(POOL_SEED, from), j) == draw(POOL_SEED, from + j));
    law_phase(draw(POOL_SEED, from + j), shift);
}

/// The first six entries are small arrays, 150 draws under each of 8 keys, and the next four
/// medium ones, 1200 draws under each of 48. None has a block that is smallest as a bitmap.
pub proof fn law_pool_arrays(i: int)
    requires
        0 <= i < 10,
    ensures
        i < 6 ==> holds_draws(mixed_set(i), i * 1200, 8, 150, 0),
        i >= 6 ==> holds_draws(mixed_set(i), 7200 + (i - 6) * 57600, 48, 1200, 0),
        forall|key: u16| best_form(#[trigger] under(mixed_set(i), key)) != CT_BITMAP,
{
    if i < 6 {
        lemma_holds_draws((i * 1200) as nat, 8, 150, 0);
    } else {
        lemma_holds_draws((7200 + (i - 6) * 57600) as nat, 48, 1200, 0);
    }
    assert forall|key: u16| best_form(#[trigger] under(mixed_set(i), key)) != CT_BITMAP by {
        assert(under(mixed_set(i), key).len() <= 1200);
        assert(array_cost(under(mixed_set(i), key)) <= BITMAP_BYTES);
    }
}

/// The next four entries are the dense ones: 12000 draws under each of 32 keys, close to three
/// times what an array holds, each entry moved by 777 more than the one before.
pub proof fn law_pool_dense(i: int)
    requires
        10 <= i < 14,
    ensures
        holds_draws(mixed_set(i), 237600 + (i - 10) * 384000, 32, 12000, (i - 10) * 777),
{
    lemma_holds_draws(
        (237600 + (i - 10) * 384000) as nat,
        32,
        12000,
        ((i - 10) * 777) as u32,
    );
}

/// The next three entries are a few long runs under each of 20 keys, eight of 3000 values,
/// seven of 4500 or six of 6000, and smallest as such.
pub proof fn law_pool_runs(i: int, key: u16)
    requires
        14 <= i < 17,
        key < 20,
    ensures
        ({
            let (u, n) = (under(mixed_set(i), key), 8 - (i - 14));
            &&& run_starts(u).len() == n
            &&& u.len() == n * (3000 + (i - 14) * 1500)
            &&& best_form(u) == CT_RUN
        }),
{
    let (block, gap) = (3000 + (i - 14) * 1500, 5000int);
    law_block_runs(20, block, gap);
    let u = under(mixed_set(i), key);
    assert(mixed_set(i) == ranges_set(0, 20, block_ranges(block, gap)));
    let n = 8 - (i - 14);
    assert((65536 - block) / (block + gap) + 1 == n) by {
        if i == 14 {
            vstd::arithmetic::div_mod::lemma_fundamental_div_mod_converse(62536, 8000, 7, 6536);
        } else if i == 15 {
            vstd::arithmetic::div_mod::lemma_fundamental_div_mod_converse(61036, 9500, 6, 4036);
        } else {
            vstd::arithmetic::div_mod::lemma_fundamental_div_mod_converse(59536, 11000, 5, 4536);
        }
    }
    assert(n * block >= 2000) by (nonlinear_arith)
        requires
            n >= 6,
            block >= 3000,
    ;
    assert(run_cost(u) <= array_cost(u));
}

/// Evenly spaced values from the first container on.
proof fn lemma_steps(set: Set<u32>, keys: int, base: int, step: int, count: int)
    requires
        set == steps_set(keys, base, step, count),
        0 <= keys <= 65536,
        0 < step,
        0 <= base,
        0 <= count,
        base + (count - 1) * step < 65536,
    ensures
        forall|v: u32| #[trigger]
            set.contains(v) <==> hi(v) < keys && base <= lo(v) && (lo(v) - base) % step == 0 && (lo(v)
                - base) / step < count,
        forall|key: u16| key < keys ==> #[trigger] under(set, key).len() == count,
{
    law_steps(keys, 0, base, step, count);
    assert(0 * 65536 + base == base);
}

/// Values of an entry of one step: each is a run of its own where the step skips any.
proof fn lemma_sparse(u: Set<u16>)
    requires
        forall|l: u16| #[trigger] u.contains(l) && l > 0 ==> !u.contains((l - 1) as u16),
    ensures
        run_starts(u) == u,
{
    assert(run_starts(u) =~= u);
}

proof fn lemma_solid(u: Set<u16>, n: int)
    requires
        0 < n,
        forall|l: u16| u.contains(l) <==> l < n,
    ensures
        run_starts(u).len() == 1,
{
    assert(run_starts(u) =~= set![0u16]) by {
        assert forall|l: u16| run_starts(u).contains(l) <==> l == 0 by {
            if l > 0 && u.contains(l) {
                assert(u.contains((l - 1) as u16));
            }
        }
    }
    assert(set![0u16].len() == 1);
}

/// Two tiny entries: forty values of one container each, 997 apart, the second 13 further.
pub proof fn law_pool_tiny(i: int, v: u32)
    requires
        17 <= i < 19,
    ensures
        mixed_set(i).contains(v) <==> (i - 17) * 13 <= v < (i - 17) * 13 + 40 * 997 && (v - (i - 17)
            * 13) % 997 == 0,
        under(mixed_set(i), 0).len() == 40,
{
    let set = mixed_set(i);
    lemma_steps(set, 1, (i - 17) * 13, 997, 40);
    lemma_split(v);
    assert(set.contains(v) <==> 0 <= hi(v) < 1 && (i - 17) * 13 <= lo(v) && (lo(v) - (i - 17) * 13)
        % 997 == 0 && (lo(v) - (i - 17) * 13) / 997 < 40);
}

/// One dense container and one full one, both of one run.
pub proof fn law_pool_solid(i: int, v: u32)
    requires
        19 <= i < 21,
    ensures
        mixed_set(i).contains(v) <==> v < (if i == 19 {
            9000
        } else {
            65536int
        }),
        best_form(under(mixed_set(i), 0)) == CT_RUN,
{
    let n: int = if i == 19 {
        9000
    } else {
        65536
    };
    let set = mixed_set(i);
    lemma_steps(set, 1, 0, 1, n);
    lemma_split(v);
    assert(set.contains(v) <==> 0 <= hi(v) < 1 && 0 <= lo(v) && (lo(v) - 0) % 1 == 0 && (lo(v) - 0) / 1
        < n);
    let u = under(set, 0);
    assert forall|l: u16| u.contains(l) <==> l < n by {
        lemma_join(0, l);
        assert(set.contains(join(0, l)) <==> 0 <= hi(join(0, l)) < 1 && 0 <= lo(join(0, l)) && (lo(
            join(0, l),
        ) - 0) % 1 == 0 && (lo(join(0, l)) - 0) / 1 < n);
    }
    lemma_solid(u, n);
    assert(u.len() == n);
}

/// Three entries of one array container each, under keys of their own that no other entry
/// has: no two of them, nor one of them and any entry before, share a value.
pub proof fn law_pool_bands(i: int, j: int)
    requires
        21 <= i < 24,
        0 <= j < i,
    ensures
        under(mixed_set(i), (600 + (i - 21) * 200) as u16).len() == 4000,
        best_form(under(mixed_set(i), (600 + (i - 21) * 200) as u16)) == CT_ARRAY,
        mixed_set(i).disjoint(mixed_set(j)),
{
    let k = 600 + (i - 21) * 200;
    law_steps(1, k, 0, 7, 4000);
    let set = steps_set(1, k * 65536 + 0, 7, 4000);
    assert(set == mixed_set(i));
    let u = under(set, k as u16);
    assert forall|l: u16| #[trigger] u.contains(l) && l > 0 implies !u.contains((l - 1) as u16) by {
        lemma_join(k as u16, l);
        lemma_join(k as u16, (l - 1) as u16);
        assert(set.contains(join(k as u16, l)));
        if u.contains((l - 1) as u16) {
            assert(set.contains(join(k as u16, (l - 1) as u16)));
        }
    }
    lemma_sparse(u);
    assert forall|v: u32| !(mixed_set(i).contains(v) && mixed_set(j).contains(v)) by {
        if mixed_set(i).contains(v) && mixed_set(j).contains(v) {
            assert(hi(v) == k);
            lemma_key(j, v);
        }
    }
}

/// The keys of the entries up to the bands.
proof fn lemma_key(j: int, v: u32)
    requires
        0 <= j < 24,
        mixed_set(j).contains(v),
    ensures
        j < 21 ==> hi(v) < 48,
        j >= 21 ==> hi(v) == 600 + (j - 21) * 200,
{
    if j < 10 {
        law_pool_arrays(j);
    } else if j < 14 {
        law_pool_dense(j);
    } else if 17 <= j < 19 {
        law_pool_tiny(j, v);
    } else if 19 <= j < 21 {
        law_pool_solid(j, v);
    } else if j >= 21 {
        let k = 600 + (j - 21) * 200;
        law_steps(1, k, 0, 7, 4000);
        assert(steps_set(1, k * 65536 + 0, 7, 4000).contains(v));
    }
}

/// Runs and a bitmap over the same twelve keys: the first 20000 values of each, and every
/// other of the first 60000.
pub proof fn law_pool_overlay(v: u32, key: u16)
    requires
        key < 12,
    ensures
        mixed_set(24).contains(v) <==> hi(v) < 12 && lo(v) < 20000,
        mixed_set(25).contains(v) <==> hi(v) < 12 && lo(v) < 60000 && lo(v) % 2 == 0,
        best_form(under(mixed_set(24), key)) == CT_RUN,
        best_form(under(mixed_set(25), key)) == CT_BITMAP,
{
    lemma_split(v);
    let (a, b) = (mixed_set(24), mixed_set(25));
    lemma_steps(a, 12, 0, 1, 20000);
    lemma_steps(b, 12, 0, 2, 30000);
    assert(a.contains(v) <==> 0 <= hi(v) < 12 && 0 <= lo(v) && (lo(v) - 0) % 1 == 0 && (lo(v) - 0) / 1
        < 20000);
    assert(b.contains(v) <==> 0 <= hi(v) < 12 && 0 <= lo(v) && (lo(v) - 0) % 2 == 0 && (lo(v) - 0) / 2
        < 30000);
    let (x, y) = (under(a, key), under(b, key));
    assert forall|l: u16| x.contains(l) <==> l < 20000 by {
        lemma_join(key, l);
        let z = join(key, l);
        assert(a.contains(z) <==> 0 <= hi(z) < 12 && 0 <= lo(z) && (lo(z) - 0) % 1 == 0 && (lo(z) - 0)
            / 1 < 20000);
    }
    lemma_solid(x, 20000);
    assert forall|l: u16| y.contains(l) implies l % 2 == 0 by {
        lemma_join(key, l);
        let z = join(key, l);
        assert(b.contains(z));
    }
    lemma_sparse(y);
    assert(x.len() == 20000 && y.len() == 30000);
}

/// The last entry is one value under each of its first 24 keys, 101 further in each.
pub proof fn law_pool_skew(v: u32)
    ensures
        mixed_set(26).contains(v) <==> hi(v) < 24 && lo(v) == hi(v) * 101,
{
    let set = steps_set(1, 0, 65637, 24);
    assert(set == mixed_set(26));
    lemma_split(v);
    if set.contains(v) {
        let (k, j) = choose|k: int, j: int|
            0 <= k < 1 && 0 <= j < 24 && v == #[trigger] step_value(k, 0, 65637, j);
        assert(v == j * 65536 + j * 101);
        assert(hi(v) == j && lo(v) == j * 101);
    }
    if hi(v) < 24 && lo(v) == hi(v) * 101 {
        assert(v == step_value(0, 0, 65637, hi(v) as int));
    }
}

/// The family of disjoint key bands is empty over the mixed pool, and so is provably before
/// any container is read.
pub proof fn law_disjoint_family(s: u64, n: usize)
    requires
        n >= POOL_LEN,
    ensures
        draw(s, 0) % 10 == 6 ==> family(s, n).0.value(
            Seq::new(POOL_LEN as nat, |i: int| mixed_set(i)),
        ) == Set::<u32>::empty(),
{
    let pool = Seq::new(POOL_LEN as nat, |i: int| mixed_set(i));
    law_families_fixed(s, n, pool);
    if draw(s, 0) % 10 == 6 {
        let (a, b) = (
            17 + crate::corpus::index(draw(s, 1), 2),
            21 + crate::corpus::index(draw(s, 2), 3),
        );
        law_pool_bands(b, a);
        assert(pool[a].intersect(pool[b]) =~= Set::<u32>::empty());
    }
}

} // verus!
