//! Working-memory pools: budgeting, pre-allocation and overflow policy.
//!
//! A pool hands buffers out for reuse. This module bounds the memory that idle buffers may
//! hold, pre-allocates it, and says what happens when a fold needs more than the budget. A
//! [`Pools`] value is one thread's pools; nothing is shared. Ops borrow from the pools in
//! [`memory`](crate::memory).
use vstd::prelude::*;

verus! {

/// What happens when a fold needs a buffer and the budget is fully handed out.
#[derive(Debug, Clone, Copy, PartialEq, Eq, Structural)]
pub enum OnOverflow {
    /// Allocate the extra buffer, and drop it when the fold releases it: the budget bounds
    /// retained memory, not peak memory. This is the default.
    Allocate,
    /// Refuse: the budget is an assertion.
    Fail,
}

impl Default for OnOverflow {
    fn default() -> (r: Self)
        ensures
            r == OnOverflow::Allocate,
    {
        OnOverflow::Allocate
    }
}

/// Buffers retained per pool when nothing is configured.
pub const DEFAULT_BUFFERS: usize = 8;

/// How much working memory a thread may keep, and what to do if a fold needs more. Build it
/// with the chained setters, then apply it with [`configure`].
#[derive(Debug, PartialEq, Eq)]
pub struct PoolConfig {
    buffers: usize,
    sizes: Vec<usize>,
    on_overflow: OnOverflow,
}

/// What a configuration says.
pub struct Limits {
    /// Buffers kept per pool.
    pub buffers: usize,
    /// Sizes to pre-allocate, one per buffer.
    pub sizes: Seq<usize>,
    pub on_overflow: OnOverflow,
}

impl View for PoolConfig {
    type V = Limits;

    closed spec fn view(&self) -> Limits {
        Limits { buffers: self.buffers, sizes: self.sizes@, on_overflow: self.on_overflow }
    }
}

/// Sum of some sizes.
pub open spec fn total(sizes: Seq<usize>) -> int
    decreases sizes.len(),
{
    if sizes.len() == 0 {
        0
    } else {
        total(sizes.drop_last()) + sizes.last()
    }
}

proof fn lemma_total(sizes: Seq<usize>, k: int)
    requires
        0 <= k <= sizes.len(),
    ensures
        0 <= total(sizes.take(k)) <= total(sizes),
    decreases sizes.len(),
{
    if k < sizes.len() {
        lemma_total(sizes.drop_last(), k);
        assert(sizes.drop_last().take(k) =~= sizes.take(k));
    } else {
        assert(sizes.take(k) =~= sizes);
        if k > 0 {
            lemma_total(sizes.drop_last(), k - 1);
            assert(sizes.drop_last().take(k - 1) =~= sizes.drop_last());
        }
    }
}

/// Sum of some sizes.
fn sum(sizes: &Vec<usize>) -> (r: usize)
    requires
        total(sizes@) <= usize::MAX,
    ensures
        r == total(sizes@),
{
    let mut s: usize = 0;
    let mut i: usize = 0;
    assert(sizes@.take(0) =~= Seq::<usize>::empty());
    while i < sizes.len()
        invariant
            i <= sizes.len(),
            s == total(sizes@.take(i as int)),
            total(sizes@) <= usize::MAX,
        decreases sizes.len() - i,
    {
        proof {
            let t = sizes@.take(i + 1);
            assert(t.drop_last() =~= sizes@.take(i as int));
            lemma_total(sizes@, i + 1);
        }
        s = s + sizes[i];
        i = i + 1;
    }
    assert(sizes@.take(i as int) =~= sizes@);
    s
}

/// A copy of some sizes.
fn copy_sizes(sizes: &Vec<usize>) -> (r: Vec<usize>)
    ensures
        r@ == sizes@,
{
    let mut v: Vec<usize> = Vec::with_capacity(sizes.len());
    let mut i: usize = 0;
    while i < sizes.len()
        invariant
            i <= sizes.len(),
            v@ == sizes@.take(i as int),
        decreases sizes.len() - i,
    {
        v.push(sizes[i]);
        i = i + 1;
        assert(v@ =~= sizes@.take(i as int));
    }
    assert(v@ =~= sizes@);
    v
}

impl Default for PoolConfig {
    fn default() -> (r: Self)
        ensures
            r@.buffers == 8,
            r@.sizes == Seq::<usize>::empty(),
            r@.on_overflow == OnOverflow::Allocate,
    {
        PoolConfig { buffers: DEFAULT_BUFFERS, sizes: Vec::new(), on_overflow: OnOverflow::Allocate }
    }
}

impl Clone for PoolConfig {
    fn clone(&self) -> (r: Self)
        ensures
            r@ == self@,
    {
        let sizes: Vec<usize> = copy_sizes(&self.sizes);
        PoolConfig { buffers: self.buffers, sizes, on_overflow: self.on_overflow }
    }
}

impl PoolConfig {
    /// The default budget: 8 buffers, allocated on demand, with [`OnOverflow::Allocate`].
    pub fn new() -> (r: Self)
        ensures
            r@.buffers == 8,
            r@.sizes == Seq::<usize>::empty(),
            r@.on_overflow == OnOverflow::Allocate,
    {
        PoolConfig::default()
    }

    /// Keep at most `n` buffers, in each pool; sizes past them are forgotten.
    pub fn buffers(self, n: usize) -> (r: Self)
        ensures
            r@.buffers == n,
            r@.sizes == (if n < self@.sizes.len() {
                self@.sizes.take(n as int)
            } else {
                self@.sizes
            }),
            r@.on_overflow == self@.on_overflow,
    {
        let mut sizes: Vec<usize> = self.sizes;
        sizes.truncate(n);
        let r: PoolConfig = PoolConfig { buffers: n, sizes, on_overflow: self.on_overflow };
        assert(r@.sizes =~= if n < self@.sizes.len() {
            self@.sizes.take(n as int)
        } else {
            self@.sizes
        });
        r
    }

    /// Pre-size every buffer to `bytes`.
    pub fn buffer_bytes(self, bytes: usize) -> (r: Self)
        ensures
            r@.buffers == self@.buffers,
            r@.sizes == Seq::new(self@.buffers as nat, |i: int| bytes),
            r@.on_overflow == self@.on_overflow,
    {
        let r: PoolConfig = PoolConfig {
            buffers: self.buffers,
            sizes: vec![bytes; self.buffers],
            on_overflow: self.on_overflow,
        };
        assert(r@.sizes =~= Seq::new(self@.buffers as nat, |i: int| bytes));
        r
    }

    /// Pre-size buffers individually; this sets the buffer count too.
    pub fn buffer_sizes(self, sizes: Vec<usize>) -> (r: Self)
        ensures
            r@.buffers == sizes@.len(),
            r@.sizes == sizes@,
            r@.on_overflow == self@.on_overflow,
    {
        PoolConfig { buffers: sizes.len(), sizes, on_overflow: self.on_overflow }
    }

    /// What to do when a fold needs more buffers than the budget.
    pub fn on_overflow(self, policy: OnOverflow) -> (r: Self)
        ensures
            r@.buffers == self@.buffers,
            r@.sizes == self@.sizes,
            r@.on_overflow == policy,
    {
        PoolConfig { buffers: self.buffers, sizes: self.sizes, on_overflow: policy }
    }

    /// Bytes that [`prewarm`] would allocate: the sizes apply to both byte pools, since a
    /// result is serialized in place in its arena and the two swap buffers on every op.
    pub fn prewarm_bytes(&self) -> (r: usize)
        requires
            2 * total(self@.sizes) <= usize::MAX,
        ensures
            r == 2 * total(self@.sizes),
    {
        proof {
            lemma_total(self.sizes@, 0);
        }
        2 * sum(&self.sizes)
    }
}

/// A snapshot of a thread's byte-buffer pools.
#[derive(Debug, Clone, Copy, PartialEq, Eq, Structural)]
pub struct PoolStats {
    /// Buffers handed out right now.
    pub live: usize,
    /// Idle buffers held for reuse.
    pub retained: usize,
    /// Bytes held by idle buffers.
    pub retained_bytes: usize,
    /// Requests for working memory that exceeded the budget since the last [`configure`].
    pub overflows: u64,
}

impl Default for PoolStats {
    fn default() -> (r: Self)
        ensures
            r == (PoolStats { live: 0, retained: 0, retained_bytes: 0, overflows: 0 }),
    {
        PoolStats { live: 0, retained: 0, retained_bytes: 0, overflows: 0 }
    }
}

/// Whether exceeding the budget is a fold outgrowing its working set, or simply more results
/// outstanding than the cache recycles.
#[derive(Debug, Clone, Copy, PartialEq, Eq, Structural)]
pub enum Kind {
    /// Per-fold working memory.
    Working,
    /// Buffers of values that the caller owns, recycled when they drop.
    Cache,
}

/// What a request for a buffer got.
pub enum Taken<T> {
    /// An idle buffer.
    Idle(T),
    /// None is idle: make one. `over` says that the budget is exceeded.
    Fresh { over: bool },
}

/// A free list with a budget. Idle buffers are kept with their size in bytes.
pub struct Pool<T> {
    free: Vec<T>,
    bytes: Vec<usize>,
    live: usize,
    kind: Kind,
}

impl<T> Pool<T> {
    pub closed spec fn wf(self) -> bool {
        self.free@.len() == self.bytes@.len()
    }

    /// The idle buffers.
    pub closed spec fn idle(self) -> Seq<T> {
        self.free@
    }

    /// Their sizes.
    pub closed spec fn sizes(self) -> Seq<usize> {
        self.bytes@
    }

    /// Buffers handed out.
    pub closed spec fn out(self) -> usize {
        self.live
    }

    pub closed spec fn use_of(self) -> Kind {
        self.kind
    }

    /// A pool of per-fold working memory, subject to [`OnOverflow`].
    pub fn new() -> (r: Self)
        ensures
            r.wf(),
            r.idle() == Seq::<T>::empty(),
            r.sizes() == Seq::<usize>::empty(),
            r.out() == 0,
            r.use_of() == Kind::Working,
    {
        Pool { free: Vec::new(), bytes: Vec::new(), live: 0, kind: Kind::Working }
    }

    /// A recycling cache for buffers that callers end up owning: holding many of them is no
    /// overflow.
    pub fn cache() -> (r: Self)
        ensures
            r.wf(),
            r.idle() == Seq::<T>::empty(),
            r.sizes() == Seq::<usize>::empty(),
            r.out() == 0,
            r.use_of() == Kind::Cache,
    {
        Pool { free: Vec::new(), bytes: Vec::new(), live: 0, kind: Kind::Cache }
    }

    /// The buffer put back last, or none; a fold that already holds the whole budget exceeds
    /// it.
    pub fn take(&mut self, limit: usize) -> (r: Taken<T>)
        requires
            old(self).wf(),
            old(self).out() < usize::MAX,
        ensures
            final(self).wf(),
            final(self).use_of() == old(self).use_of(),
            final(self).out() == old(self).out() + 1,
            match r {
                Taken::Idle(item) => {
                    &&& old(self).idle().len() > 0
                    &&& item == old(self).idle().last()
                    &&& final(self).idle() == old(self).idle().drop_last()
                    &&& final(self).sizes() == old(self).sizes().drop_last()
                },
                Taken::Fresh { over } => {
                    &&& old(self).idle().len() == 0
                    &&& final(self).idle() == old(self).idle()
                    &&& final(self).sizes() == old(self).sizes()
                    &&& over == (old(self).use_of() == Kind::Working && old(self).out() + 1 > limit)
                },
            },
    {
        self.live = self.live + 1;
        match self.free.pop() {
            Some(item) => {
                let _size: Option<usize> = self.bytes.pop();
                assert(self.free@ =~= old(self).free@.drop_last());
                assert(self.bytes@ =~= old(self).bytes@.drop_last());
                Taken::Idle(item)
            },
            None => {
                let over: bool = match self.kind {
                    Kind::Working => self.live > limit,
                    Kind::Cache => false,
                };
                Taken::Fresh { over }
            },
        }
    }

    /// Take a buffer of `bytes` bytes back, keeping it only while the pool is under budget.
    pub fn put(&mut self, item: T, bytes: usize, limit: usize)
        requires
            old(self).wf(),
        ensures
            final(self).wf(),
            final(self).use_of() == old(self).use_of(),
            final(self).out() == (if old(self).out() > 0 {
                old(self).out() - 1
            } else {
                0
            }),
            old(self).idle().len() < limit ==> final(self).idle() == old(self).idle().push(item)
                && final(self).sizes() == old(self).sizes().push(bytes),
            old(self).idle().len() >= limit ==> final(self).idle() == old(self).idle()
                && final(self).sizes() == old(self).sizes(),
    {
        if self.live > 0 {
            self.live = self.live - 1;
        }
        if self.free.len() < limit {
            self.free.push(item);
            self.bytes.push(bytes);
        }
    }

    /// How many of `n` buffers to pre-allocate: up to the budget.
    pub fn room(&self, n: usize, limit: usize) -> (r: usize)
        requires
            self.wf(),
        ensures
            r == (if self.idle().len() >= limit {
                0
            } else if n < limit - self.idle().len() {
                n as int
            } else {
                limit - self.idle().len()
            }),
    {
        let left: usize = limit.saturating_sub(self.free.len());
        if n < left {
            n
        } else {
            left
        }
    }

    /// Pre-allocate one buffer per size, up to the budget.
    pub fn prewarm<F: Fn(usize) -> T>(&mut self, sizes: &Vec<usize>, limit: usize, make: F)
        requires
            old(self).wf(),
            forall|s: usize| #[trigger] sizes@.contains(s) ==> call_requires(make, (s,)),
        ensures
            final(self).wf(),
            final(self).use_of() == old(self).use_of(),
            final(self).out() == old(self).out(),
            warmed(*old(self), *final(self), sizes@, limit),
            forall|i: int|
                old(self).idle().len() <= i < final(self).idle().len() ==> call_ensures(
                    make,
                    (sizes@[i - old(self).idle().len()],),
                    #[trigger] final(self).idle()[i],
                ),
    {
        let n: usize = self.room(sizes.len(), limit);
        let ghost was = self.free@.len() as int;
        let mut i: usize = 0;
        while i < n
            invariant
                i <= n <= sizes.len(),
                was == old(self).free@.len(),
                self.free@.len() == was + i,
                self.bytes@.len() == was + i,
                self.kind == old(self).kind,
                self.live == old(self).live,
                forall|s: usize| #[trigger] sizes@.contains(s) ==> call_requires(make, (s,)),
                forall|k: int| 0 <= k < was ==> #[trigger] self.free@[k] == old(self).free@[k],
                self.bytes@ == old(self).bytes@ + sizes@.take(i as int),
                forall|k: int|
                    was <= k < was + i ==> call_ensures(
                        make,
                        (sizes@[k - was],),
                        #[trigger] self.free@[k],
                    ),
            decreases n - i,
        {
            let s: usize = sizes[i];
            assert(sizes@.contains(s));
            self.free.push(make(s));
            self.bytes.push(s);
            i = i + 1;
            assert(self.bytes@ =~= old(self).bytes@ + sizes@.take(i as int));
        }
        assert(self.idle().take(was) =~= old(self).idle());
    }

    /// Drop every idle buffer.
    pub fn clear(&mut self)
        ensures
            final(self).wf(),
            final(self).idle() == Seq::<T>::empty(),
            final(self).sizes() == Seq::<usize>::empty(),
            final(self).out() == old(self).out(),
            final(self).use_of() == old(self).use_of(),
    {
        self.free.clear();
        self.bytes.clear();
    }

    /// Buffers handed out, buffers idle, and bytes idle.
    pub fn stats(&self) -> (r: (usize, usize, usize))
        requires
            self.wf(),
            total(self.sizes()) <= usize::MAX,
        ensures
            r.0 == self.out(),
            r.1 == self.idle().len(),
            r.2 == total(self.sizes()),
    {
        (self.live, self.free.len(), sum(&self.bytes))
    }
}

/// The idle buffers are those of before and one per size, as far as the budget goes.
pub open spec fn warmed<T>(before: Pool<T>, after: Pool<T>, sizes: Seq<usize>, limit: usize) -> bool {
    let was = before.idle().len() as int;
    let n = if was >= limit {
        0
    } else if sizes.len() < limit - was {
        sizes.len() as int
    } else {
        limit - was
    };
    &&& after.idle().len() == was + n
    &&& after.idle().take(was) == before.idle()
    &&& after.sizes() == before.sizes() + sizes.take(n)
}

/// One thread's pools: arena working memory and result buffers.
pub struct Pools<T> {
    config: PoolConfig,
    overflows: u64,
    arena: Pool<T>,
    result: Pool<T>,
}

impl<T> Pools<T> {
    pub closed spec fn wf(self) -> bool {
        &&& self.arena.wf()
        &&& self.result.wf()
        &&& self.arena.use_of() == Kind::Working
        &&& self.result.use_of() == Kind::Cache
    }

    /// What is configured.
    pub closed spec fn limits(self) -> Limits {
        self.config@
    }

    /// Requests over budget since the last [`configure`].
    pub closed spec fn over(self) -> u64 {
        self.overflows
    }

    /// Arena working memory.
    pub closed spec fn arenas(self) -> Pool<T> {
        self.arena
    }

    /// Result buffers.
    pub closed spec fn results(self) -> Pool<T> {
        self.result
    }

    /// Empty pools with the default budget.
    pub fn new() -> (r: Self)
        ensures
            r.wf(),
            r.limits().buffers == 8,
            r.limits().sizes == Seq::<usize>::empty(),
            r.limits().on_overflow == OnOverflow::Allocate,
            r.over() == 0,
            r.arenas().idle() == Seq::<T>::empty(),
            r.results().idle() == Seq::<T>::empty(),
            r.arenas().sizes() == Seq::<usize>::empty(),
            r.results().sizes() == Seq::<usize>::empty(),
            r.arenas().out() == 0,
            r.results().out() == 0,
    {
        Pools { config: PoolConfig::new(), overflows: 0, arena: Pool::new(), result: Pool::cache() }
    }

    /// Request working memory. A request over budget is counted; under [`OnOverflow::Fail`]
    /// it is refused (`None`).
    pub fn take_arena(&mut self) -> (r: Option<Taken<T>>)
        requires
            old(self).wf(),
            old(self).arenas().out() < usize::MAX,
        ensures
            final(self).wf(),
            final(self).limits() == old(self).limits(),
            final(self).results() == old(self).results(),
            final(self).arenas().out() == old(self).arenas().out() + 1,
            ({
                let over = old(self).arenas().idle().len() == 0 && old(self).arenas().out() + 1
                    > old(self).limits().buffers;
                &&& final(self).over() == (if over && old(self).over() < u64::MAX {
                    old(self).over() + 1
                } else {
                    old(self).over() as int
                })
                &&& r is None <==> over && old(self).limits().on_overflow == OnOverflow::Fail
                &&& r matches Some(Taken::Fresh { over: o }) ==> o == over
                    && old(self).arenas().idle().len() == 0
                &&& old(self).arenas().idle().len() == 0 ==> final(self).arenas().idle()
                    == old(self).arenas().idle() && final(self).arenas().sizes() == old(
                    self,
                ).arenas().sizes()
                &&& r matches Some(Taken::Idle(item)) ==> {
                    &&& old(self).arenas().idle().len() > 0
                    &&& item == old(self).arenas().idle().last()
                    &&& final(self).arenas().idle() == old(self).arenas().idle().drop_last()
                    &&& final(self).arenas().sizes() == old(self).arenas().sizes().drop_last()
                }
            }),
    {
        let limit: usize = self.config.buffers;
        let t: Taken<T> = self.arena.take(limit);
        let over: bool = match &t {
            Taken::Fresh { over } => *over,
            Taken::Idle(_) => false,
        };
        if over {
            self.overflows = self.overflows.saturating_add(1);
            match self.config.on_overflow {
                OnOverflow::Fail => {
                    return None;
                },
                OnOverflow::Allocate => {},
            }
        }
        Some(t)
    }

    /// Return working memory of `bytes` bytes.
    pub fn put_arena(&mut self, item: T, bytes: usize)
        requires
            old(self).wf(),
        ensures
            final(self).wf(),
            final(self).limits() == old(self).limits(),
            final(self).over() == old(self).over(),
            final(self).results() == old(self).results(),
            kept(old(self).arenas(), final(self).arenas(), item, bytes, old(self).limits().buffers),
    {
        let limit: usize = self.config.buffers;
        self.arena.put(item, bytes, limit);
    }

    /// Request a result buffer; never over budget.
    pub fn take_result(&mut self) -> (r: Option<T>)
        requires
            old(self).wf(),
            old(self).results().out() < usize::MAX,
        ensures
            final(self).wf(),
            final(self).limits() == old(self).limits(),
            final(self).over() == old(self).over(),
            final(self).arenas() == old(self).arenas(),
            final(self).results().out() == old(self).results().out() + 1,
            r is None <==> old(self).results().idle().len() == 0,
            r is None ==> final(self).results().idle() == old(self).results().idle()
                && final(self).results().sizes() == old(self).results().sizes(),
            r matches Some(item) ==> {
                &&& item == old(self).results().idle().last()
                &&& final(self).results().idle() == old(self).results().idle().drop_last()
                &&& final(self).results().sizes() == old(self).results().sizes().drop_last()
            },
    {
        let limit: usize = self.config.buffers;
        match self.result.take(limit) {
            Taken::Idle(item) => Some(item),
            Taken::Fresh { .. } => None,
        }
    }

    /// Return a result buffer of `bytes` bytes.
    pub fn put_result(&mut self, item: T, bytes: usize)
        requires
            old(self).wf(),
        ensures
            final(self).wf(),
            final(self).limits() == old(self).limits(),
            final(self).over() == old(self).over(),
            final(self).arenas() == old(self).arenas(),
            kept(
                old(self).results(),
                final(self).results(),
                item,
                bytes,
                old(self).limits().buffers,
            ),
    {
        let limit: usize = self.config.buffers;
        self.result.put(item, bytes, limit);
    }
}

/// A returned buffer is kept exactly while the pool is under budget.
pub open spec fn kept<T>(before: Pool<T>, after: Pool<T>, item: T, bytes: usize, limit: usize) -> bool {
    &&& after.out() == (if before.out() > 0 {
        before.out() - 1
    } else {
        0
    })
    &&& before.idle().len() < limit ==> after.idle() == before.idle().push(item) && after.sizes()
        == before.sizes().push(bytes)
    &&& before.idle().len() >= limit ==> after.idle() == before.idle() && after.sizes()
        == before.sizes()
}

/// Apply `config`. Idle buffers beyond the new budget stay until they are next used.
pub fn configure<T>(pools: &mut Pools<T>, config: PoolConfig)
    requires
        old(pools).wf(),
    ensures
        final(pools).wf(),
        final(pools).limits() == config@,
        final(pools).over() == 0,
        final(pools).arenas() == old(pools).arenas(),
        final(pools).results() == old(pools).results(),
{
    pools.config = config;
    pools.overflows = 0;
}

/// The configured budget.
pub fn config<T>(pools: &Pools<T>) -> (r: PoolConfig)
    ensures
        r@ == pools.limits(),
{
    pools.config.clone()
}

/// Allocate the configured buffers now, in both pools. Without sizes this does nothing.
pub fn prewarm<T, F: Fn(usize) -> T, G: Fn(usize) -> T>(pools: &mut Pools<T>, arena: F, result: G)
    requires
        old(pools).wf(),
        forall|s: usize| #[trigger]
            old(pools).limits().sizes.contains(s) ==> call_requires(arena, (s,)) && call_requires(
                result,
                (s,),
            ),
    ensures
        final(pools).wf(),
        final(pools).limits() == old(pools).limits(),
        final(pools).over() == old(pools).over(),
        warmed(
            old(pools).arenas(),
            final(pools).arenas(),
            old(pools).limits().sizes,
            old(pools).limits().buffers,
        ),
        warmed(
            old(pools).results(),
            final(pools).results(),
            old(pools).limits().sizes,
            old(pools).limits().buffers,
        ),
        final(pools).arenas().out() == old(pools).arenas().out(),
        final(pools).results().out() == old(pools).results().out(),
        forall|i: int|
            old(pools).arenas().idle().len() <= i < final(pools).arenas().idle().len()
                ==> call_ensures(
                arena,
                (old(pools).limits().sizes[i - old(pools).arenas().idle().len()],),
                #[trigger] final(pools).arenas().idle()[i],
            ),
        forall|i: int|
            old(pools).results().idle().len() <= i < final(pools).results().idle().len()
                ==> call_ensures(
                result,
                (old(pools).limits().sizes[i - old(pools).results().idle().len()],),
                #[trigger] final(pools).results().idle()[i],
            ),
{
    let sizes: Vec<usize> = copy_sizes(&pools.config.sizes);
    let limit: usize = pools.config.buffers;
    assert forall|s: usize| #[trigger] sizes@.contains(s) implies call_requires(arena, (s,))
        && call_requires(result, (s,)) by {
        assert(old(pools).limits().sizes.contains(s));
    }
    pools.result.prewarm(&sizes, limit, result);
    pools.arena.prewarm(&sizes, limit, arena);
}

/// Release every idle buffer. The budget is unchanged, so buffers in flight are pooled again
/// when they come back.
pub fn clear<T>(pools: &mut Pools<T>)
    requires
        old(pools).wf(),
    ensures
        final(pools).wf(),
        final(pools).limits() == old(pools).limits(),
        final(pools).over() == old(pools).over(),
        final(pools).arenas().idle() == Seq::<T>::empty(),
        final(pools).results().idle() == Seq::<T>::empty(),
        final(pools).arenas().sizes() == Seq::<usize>::empty(),
        final(pools).results().sizes() == Seq::<usize>::empty(),
        final(pools).arenas().out() == old(pools).arenas().out(),
        final(pools).results().out() == old(pools).results().out(),
{
    pools.result.clear();
    pools.arena.clear();
}

/// A snapshot of both pools.
pub fn stats<T>(pools: &Pools<T>) -> (r: PoolStats)
    requires
        pools.wf(),
        pools.arenas().out() + pools.results().out() <= usize::MAX,
        pools.arenas().idle().len() + pools.results().idle().len() <= usize::MAX,
        total(pools.arenas().sizes()) + total(pools.results().sizes()) <= usize::MAX,
    ensures
        r.live == pools.arenas().out() + pools.results().out(),
        r.retained == pools.arenas().idle().len() + pools.results().idle().len(),
        r.retained_bytes == total(pools.arenas().sizes()) + total(pools.results().sizes()),
        r.overflows == pools.over(),
{
    proof {
        lemma_total(pools.arena.bytes@, 0);
        lemma_total(pools.result.bytes@, 0);
    }
    let (rl, rr, rb): (usize, usize, usize) = pools.result.stats();
    let (al, ar, ab): (usize, usize, usize) = pools.arena.stats();
    PoolStats { live: rl + al, retained: rr + ar, retained_bytes: rb + ab, overflows: pools.overflows }
}

/// Retained memory never exceeds the budget: a returned buffer leaves no more idle than there
/// were, or than the budget allows.
pub proof fn law_retained<T>(before: Pool<T>, after: Pool<T>, item: T, bytes: usize, limit: usize)
    requires
        kept(before, after, item, bytes, limit),
    ensures
        before.idle().len() <= limit ==> after.idle().len() <= limit,
        before.idle().len() > limit ==> after.idle().len() == before.idle().len(),
{
}

/// Prewarming fills an empty pool with a buffer of each configured size, in order, up to the
/// budget; what is idle stays, and a pool at its budget takes none.
pub proof fn law_warmed<T>(before: Pool<T>, after: Pool<T>, sizes: Seq<usize>, limit: usize)
    requires
        warmed(before, after, sizes, limit),
        before.wf(),
    ensures
        forall|i: int|
            0 <= i < before.idle().len() ==> #[trigger] after.idle()[i] == before.idle()[i],
        before.idle().len() + sizes.len() <= limit ==> after.sizes() == before.sizes() + sizes
            && after.idle().len() == before.idle().len() + sizes.len(),
        before.idle().len() <= limit < before.idle().len() + sizes.len() ==> after.idle().len()
            == limit && after.sizes().len() == limit,
        before.idle().len() >= limit ==> after.idle() == before.idle() && after.sizes()
            == before.sizes(),
{
    let was = before.idle().len() as int;
    assert forall|i: int| 0 <= i < was implies #[trigger] after.idle()[i] == before.idle()[i] by {
        assert(after.idle().take(was)[i] == before.idle()[i]);
    }
    if was + sizes.len() <= limit {
        assert(sizes.take(sizes.len() as int) =~= sizes);
    }
    if was >= limit {
        assert(after.idle() =~= after.idle().take(was));
        assert(before.sizes() + sizes.take(0) =~= before.sizes());
    }
}

/// Prewarming empty pools allocates what the configuration says: a buffer of each size in
/// both, while the sizes are no more than the budget.
pub proof fn law_prewarm_bytes<T>(a: Pool<T>, b: Pool<T>, c: Pool<T>, d: Pool<T>, sizes: Seq<usize>, limit: usize)
    requires
        warmed(a, b, sizes, limit),
        warmed(c, d, sizes, limit),
        a.wf(),
        c.wf(),
        a.idle().len() == 0,
        c.idle().len() == 0,
        sizes.len() <= limit,
    ensures
        total(b.sizes()) + total(d.sizes()) == 2 * total(sizes),
        b.idle().len() == sizes.len(),
        d.idle().len() == sizes.len(),
{
    law_warmed(a, b, sizes, limit);
    law_warmed(c, d, sizes, limit);
    assert(a.sizes().len() == 0 && c.sizes().len() == 0);
    assert(b.sizes() =~= sizes);
    assert(d.sizes() =~= sizes);
}

} // verus!
