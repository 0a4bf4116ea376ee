//! Fixed-size-class allocator over a statically sized arena.
//!
//! The arena is split into `N_SLABS` equal shares, one per size class. Each
//! share is carved into blocks of its class's size, and the free blocks of a
//! class are threaded into a singly linked list of block indices. A block
//! handle is the byte offset of the block from the start of the arena.
use vstd::arithmetic::div_mod::{lemma_basic_div, lemma_fundamental_div_mod_converse};
use vstd::prelude::*;

verus! {

/// Total number of bytes in the arena shared by all pools.
pub const HEAP_SIZE: usize = 16384;

/// Number of size classes.
pub const N_SLABS: usize = 4;

/// Block size of size class `c`, ascending with `c`.
pub open spec fn class_size(c: int) -> int {
    if c == 0 {
        16
    } else if c == 1 {
        32
    } else if c == 2 {
        64
    } else {
        128
    }
}

/// Number of blocks of `obj_size` bytes in one pool's share of the arena.
pub open spec fn spec_slab_count(obj_size: int) -> int {
    HEAP_SIZE as int / (N_SLABS as int * obj_size)
}

/// Number of blocks that pool `c` is carved into.
pub open spec fn class_capacity(c: int) -> int {
    spec_slab_count(class_size(c))
}

/// Arena offset at which pool `c`'s region starts.
pub open spec fn class_base(c: int) -> int {
    c * class_capacity(c) * class_size(c)
}

/// The first size class whose blocks hold `size` bytes, or `N_SLABS` when
/// the request is larger than every class.
pub open spec fn class_of(size: int) -> int {
    if size <= 16 {
        0
    } else if size <= 32 {
        1
    } else if size <= 64 {
        2
    } else if size <= 128 {
        3
    } else {
        4
    }
}

/// `h` is the handle of a block of pool `c`.
pub open spec fn is_block_of(c: int, h: int) -> bool {
    &&& 0 <= c < N_SLABS
    &&& class_base(c) <= h < class_base(c) + class_capacity(c) * class_size(c)
    &&& (h - class_base(c)) % class_size(c) == 0
}

/// The free list of pool `c` right after carving: every block, lowest first.
pub open spec fn fresh_pool(c: int) -> Seq<usize> {
    Seq::new(class_capacity(c) as nat, |k: int| (class_base(c) + k * class_size(c)) as usize)
}

/// The free lists of all pools before anything has been allocated.
pub open spec fn fresh_pools() -> Seq<Seq<usize>> {
    Seq::new(N_SLABS as nat, |c: int| fresh_pool(c))
}

/// A state of the allocator: one free list per pool, each listing distinct
/// blocks of its own pool, head first.
pub open spec fn pools_wf(p: Seq<Seq<usize>>) -> bool {
    &&& p.len() == N_SLABS
    &&& forall|c: int| 0 <= c < N_SLABS ==> (#[trigger] p[c]).no_duplicates()
    &&& forall|c: int, k: int|
        0 <= c < N_SLABS && 0 <= k < p[c].len() ==> is_block_of(c, #[trigger] p[c][k] as int)
}

/// Why an allocation request was not served.
#[derive(Debug, Clone, Copy, PartialEq, Eq, Structural)]
pub enum AllocError {
    /// No size class is large enough for the request.
    AllocationFailure,
    /// The fitting size class has no free block left.
    OutOfMemory,
}

/// One allocation of `size` bytes on the free lists `p`: the state after it
/// and the result. The smallest fitting class serves the request from the
/// head of its free list; no other class is ever tried.
pub open spec fn alloc_step(p: Seq<Seq<usize>>, size: int) -> (Seq<Seq<usize>>, Result<usize, AllocError>) {
    let c = class_of(size);
    if c >= N_SLABS {
        (p, Err(AllocError::AllocationFailure))
    } else if p[c].len() == 0 {
        (p, Err(AllocError::OutOfMemory))
    } else {
        (p.update(c, p[c].drop_first()), Ok(p[c][0]))
    }
}

/// Freeing block `h` of `size` bytes on the free lists `p`: the block goes
/// to the head of its class's list. A size larger than every class is ignored.
pub open spec fn dealloc_step(p: Seq<Seq<usize>>, h: usize, size: int) -> Seq<Seq<usize>> {
    let c = class_of(size);
    if c >= N_SLABS {
        p
    } else {
        p.update(c, seq![h] + p[c])
    }
}

/// `n` allocations of `size` bytes in a row: the final state and each result.
pub open spec fn alloc_n(p: Seq<Seq<usize>>, size: int, n: nat) -> (
    Seq<Seq<usize>>,
    Seq<Result<usize, AllocError>>,
)
    decreases n,
{
    if n == 0 {
        (p, seq![])
    } else {
        let (q, rs) = alloc_n(p, size, (n - 1) as nat);
        let (q2, r) = alloc_step(q, size);
        (q2, rs.push(r))
    }
}

/// Freeing the blocks `hs` of `size` bytes, first to last.
pub open spec fn dealloc_all(p: Seq<Seq<usize>>, hs: Seq<usize>, size: int) -> Seq<Seq<usize>>
    decreases hs.len(),
{
    if hs.len() == 0 {
        p
    } else {
        dealloc_step(dealloc_all(p, hs.drop_last(), size), hs.last(), size)
    }
}

/// `n` allocations from a class with at least `n` free blocks hand out its
/// first `n` free blocks, in list order, and leave the rest.
pub proof fn lemma_alloc_n(p: Seq<Seq<usize>>, size: int, n: nat)
    requires
        pools_wf(p),
        class_of(size) < N_SLABS,
        n <= p[class_of(size)].len(),
    ensures
        alloc_n(p, size, n).0 == p.update(class_of(size), p[class_of(size)].skip(n as int)),
        alloc_n(p, size, n).1 == Seq::new(n, |k: int| Ok::<usize, AllocError>(p[class_of(size)][k])),
    decreases n,
{
    let c = class_of(size);
    if n == 0 {
        assert(p[c].skip(0) =~= p[c]);
        assert(p.update(c, p[c].skip(0)) =~= p);
        assert(alloc_n(p, size, n).1 =~= Seq::new(n, |k: int| Ok::<usize, AllocError>(p[c][k])));
    } else {
        lemma_alloc_n(p, size, (n - 1) as nat);
        let q = p.update(c, p[c].skip(n - 1));
        assert(q[c][0] == p[c][n - 1]);
        assert(q[c].drop_first() =~= p[c].skip(n as int));
        assert(q.update(c, q[c].drop_first()) =~= p.update(c, p[c].skip(n as int)));
        assert(alloc_n(p, size, n).1 =~= Seq::new(n, |k: int| Ok::<usize, AllocError>(p[c][k])));
    }
}

proof fn lemma_dealloc_all_len(p: Seq<Seq<usize>>, hs: Seq<usize>, size: int)
    requires
        p.len() == N_SLABS,
    ensures
        dealloc_all(p, hs, size).len() == p.len(),
    decreases hs.len(),
{
    if hs.len() > 0 {
        lemma_dealloc_all_len(p, hs.drop_last(), size);
    }
}

/// Allocating `n` blocks of one class and then freeing those same blocks
/// yields `n` distinct handles, and the next request of that class is served
/// with the block freed last.
pub proof fn lemma_lifo_reuse(p: Seq<Seq<usize>>, size: int, n: nat)
    requires
        pools_wf(p),
        class_of(size) < N_SLABS,
        0 < n <= p[class_of(size)].len(),
    ensures
        alloc_n(p, size, n).1.len() == n,
        forall|i: int| 0 <= i < n ==> (#[trigger] alloc_n(p, size, n).1[i]) is Ok,
        forall|i: int, j: int|
            0 <= i < n && 0 <= j < n && i != j ==> alloc_n(p, size, n).1[i] != alloc_n(
                p,
                size,
                n,
            ).1[j],
        alloc_step(
            dealloc_all(alloc_n(p, size, n).0, p[class_of(size)].take(n as int), size),
            size,
        ).1 == Ok::<usize, AllocError>(p[class_of(size)][n - 1]),
        p[class_of(size)].take(n as int).contains(p[class_of(size)][n - 1]),
{
    let c = class_of(size);
    lemma_alloc_n(p, size, n);
    let rs = alloc_n(p, size, n).1;
    assert forall|i: int, j: int| 0 <= i < n && 0 <= j < n && i != j implies rs[i] != rs[j] by {
        assert(p[c].no_duplicates());
        assert(rs[i] == Ok::<usize, AllocError>(p[c][i]));
        assert(rs[j] == Ok::<usize, AllocError>(p[c][j]));
    }
    let hs = p[c].take(n as int);
    let q = alloc_n(p, size, n).0;
    lemma_dealloc_all_len(q, hs.drop_last(), size);
    assert(hs.last() == p[c][n - 1]);
    assert(hs[n - 1] == p[c][n - 1]);
}

/// Once a class's free blocks are all handed out, the next request of that
/// class fails with `OutOfMemory`; freeing any one of the handed-out blocks
/// then lets exactly one more request succeed, with that block.
pub proof fn lemma_capacity_exhaustion(p: Seq<Seq<usize>>, size: int, j: int)
    requires
        pools_wf(p),
        class_of(size) < N_SLABS,
        0 <= j < p[class_of(size)].len(),
    ensures
        forall|i: int|
            0 <= i < p[class_of(size)].len() ==> (#[trigger] alloc_n(
                p,
                size,
                p[class_of(size)].len() + 1,
            ).1[i]) is Ok,
        alloc_n(p, size, p[class_of(size)].len() + 1).1[p[class_of(size)].len() as int]
            == Err::<usize, AllocError>(AllocError::OutOfMemory),
        alloc_step(
            dealloc_step(alloc_n(p, size, p[class_of(size)].len() + 1).0, p[class_of(size)][j], size),
            size,
        ).1 == Ok::<usize, AllocError>(p[class_of(size)][j]),
        alloc_step(
            alloc_step(
                dealloc_step(
                    alloc_n(p, size, p[class_of(size)].len() + 1).0,
                    p[class_of(size)][j],
                    size,
                ),
                size,
            ).0,
            size,
        ).1 == Err::<usize, AllocError>(AllocError::OutOfMemory),
{
    let c = class_of(size);
    let k = p[c].len();
    lemma_alloc_n(p, size, k);
    let q = alloc_n(p, size, k).0;
    assert(q[c] =~= Seq::<usize>::empty());
    let h = p[c][j];
    let q1 = dealloc_step(alloc_n(p, size, k + 1).0, h, size);
    assert(q1[c] =~= seq![h]);
    assert(alloc_step(q1, size).0[c] =~= Seq::<usize>::empty());
}

/// Every block handle is aligned to 16 bytes, which covers the machine word,
/// and its block lies inside the arena.
pub proof fn lemma_block_aligned(c: int, h: int)
    requires
        is_block_of(c, h),
    ensures
        h % 16 == 0,
        h + class_size(c) <= HEAP_SIZE,
{
    lemma_class_geometry(c);
    let s = class_size(c);
    let d = h - class_base(c);
    lemma_exact_div(d, s);
    let q = d / s;
    assert(d + s <= class_capacity(c) * s) by (nonlinear_arith)
        requires
            d == q * s,
            d < class_capacity(c) * s,
            s > 0,
    ;
    lemma_exact_div(s, 16);
    let t = s / 16;
    assert(d == (q * t) * 16) by (nonlinear_arith)
        requires
            d == q * s,
            s == t * 16,
    ;
    assert(q * t >= 0) by (nonlinear_arith)
        requires
            q >= 0,
            t >= 0,
    ;
    lemma_block_offset(q * t, 16);
}

/// A request larger than every size class fails with `AllocationFailure`
/// and leaves every free list as it was, whatever the allocator holds.
pub proof fn lemma_oversize_fails(p: Seq<Seq<usize>>, size: int)
    requires
        size > class_size(N_SLABS - 1),
    ensures
        alloc_step(p, size) == (p, Err::<usize, AllocError>(AllocError::AllocationFailure)),
{
}

/// Number of blocks of `obj_size` bytes that one pool's share of the arena holds.
pub fn slab_count(obj_size: usize) -> (r: usize)
    requires
        obj_size > 0,
    ensures
        r == spec_slab_count(obj_size as int),
{
    if obj_size > HEAP_SIZE {
        proof {
            lemma_basic_div(HEAP_SIZE as int, N_SLABS as int * obj_size as int);
        }
        0
    } else {
        HEAP_SIZE / (N_SLABS * obj_size)
    }
}

/// Block size of size class `i`.
pub fn slab_size(i: usize) -> (r: usize)
    requires
        i < N_SLABS,
    ensures
        r == class_size(i as int),
{
    if i == 0 {
        16
    } else if i == 1 {
        32
    } else if i == 2 {
        64
    } else {
        128
    }
}

/// Index of the smallest size class whose blocks hold `size` bytes, or
/// `N_SLABS` when none does.
pub fn size_class(size: usize) -> (r: usize)
    ensures
        r == class_of(size as int),
{
    let mut i: usize = 0;
    while i < N_SLABS
        invariant
            i <= N_SLABS,
            i > 0 ==> size > class_size(i - 1),
        decreases N_SLABS - i,
    {
        if size <= slab_size(i) {
            return i;
        }
        i = i + 1;
    }
    N_SLABS
}

/// A pool of equally sized blocks, with its free blocks threaded into a
/// singly linked list of block indices.
pub struct Slab {
    /// Index of the first free block.
    free_list: Option<usize>,
    /// For each block, the index of the free block after it in the list.
    links: Vec<Option<usize>>,
    /// Size of each block in bytes.
    obj_size: usize,
    /// Number of blocks carved; zero until the pool is carved.
    count: usize,
    /// Arena offset of the pool's first block.
    base: usize,
    /// The free block indices in list order.
    free_idx: Ghost<Seq<usize>>,
}

impl View for Slab {
    type V = Seq<usize>;

    /// Handles of the free blocks, head of the list first.
    closed spec fn view(&self) -> Seq<usize> {
        self.free_idx@.map_values(|i: usize| (self.base + i * self.obj_size) as usize)
    }
}

proof fn lemma_block_bound(i: int, count: int, size: int)
    requires
        0 <= i < count,
        size > 0,
    ensures
        i * size + size <= count * size,
{
    assert(i * size + size <= count * size) by (nonlinear_arith)
        requires
            0 <= i < count,
            size > 0,
    ;
}

proof fn lemma_block_injective(i: int, j: int, size: int)
    requires
        size > 0,
        i * size == j * size,
    ensures
        i == j,
{
    assert(i == j) by (nonlinear_arith)
        requires
            size > 0,
            i * size == j * size,
    ;
}

proof fn lemma_block_offset(i: int, s: int)
    requires
        i >= 0,
        s > 0,
    ensures
        (i * s) % s == 0,
        (i * s) / s == i,
{
    assert((i * s) % s == 0 && (i * s) / s == i) by (nonlinear_arith)
        requires
            s > 0,
            i >= 0,
    ;
}

proof fn lemma_exact_div(d: int, s: int)
    requires
        s > 0,
        d % s == 0,
    ensures
        d == (d / s) * s,
{
    assert(d == (d / s) * s) by (nonlinear_arith)
        requires
            s > 0,
            d % s == 0,
    ;
}

impl Slab {
    /// Size of each block in bytes.
    pub closed spec fn obj_size(&self) -> nat {
        self.obj_size as nat
    }

    /// Number of blocks carved.
    pub closed spec fn count(&self) -> nat {
        self.count as nat
    }

    /// Arena offset of the first block.
    pub closed spec fn base(&self) -> nat {
        self.base as nat
    }

    /// The free list is acyclic, lists distinct carved blocks, ends in an
    /// explicit "no next", and the carved region lies inside the arena.
    pub closed spec fn wf(&self) -> bool {
        let free = self.free_idx@;
        &&& self.obj_size > 0
        &&& self.links@.len() == self.count
        &&& self.base + self.count * self.obj_size <= HEAP_SIZE
        &&& free.no_duplicates()
        &&& forall|k: int| 0 <= k < free.len() ==> #[trigger] free[k] < self.count
        &&& self.free_list == if free.len() == 0 {
            None
        } else {
            Some(free[0])
        }
        &&& forall|k: int|
            0 <= k < free.len() ==> self.links@[#[trigger] free[k] as int] == if k + 1
                < free.len() {
                Some(free[k + 1])
            } else {
                None
            }
    }

    /// `ptr` is the handle of one of this pool's blocks.
    pub closed spec fn holds(&self, ptr: usize) -> bool {
        &&& self.count > 0
        &&& self.base <= ptr
        &&& (ptr - self.base) % (self.obj_size as int) == 0
        &&& (ptr - self.base) / (self.obj_size as int) < self.count
    }

    proof fn lemma_view_blocks(&self)
        requires
            self.wf(),
        ensures
            self@.len() == self.free_idx@.len(),
            forall|k: int|
                0 <= k < self@.len() ==> #[trigger] self@[k] == self.base + self.free_idx@[k]
                    * self.obj_size && self.holds(self@[k]),
    {
        assert forall|k: int| 0 <= k < self@.len() implies #[trigger] self@[k] == self.base
            + self.free_idx@[k] * self.obj_size && self.holds(self@[k]) by {
            let i = self.free_idx@[k] as int;
            let s = self.obj_size as int;
            lemma_block_bound(i, self.count as int, s);
            lemma_block_offset(i, s);
        }
    }

    proof fn lemma_view_distinct(&self)
        requires
            self.wf(),
        ensures
            self@.no_duplicates(),
    {
        self.lemma_view_blocks();
        assert forall|a: int, b: int|
            0 <= a < self@.len() && 0 <= b < self@.len() && a != b implies self@[a]
            != self@[b] by {
            if self@[a] == self@[b] {
                lemma_block_injective(
                    self.free_idx@[a] as int,
                    self.free_idx@[b] as int,
                    self.obj_size as int,
                );
            }
        }
    }

    /// An uncarved pool of blocks of `obj_size` bytes.
    pub fn uninit(obj_size: usize) -> (r: Self)
        requires
            obj_size > 0,
        ensures
            r.wf(),
            r.obj_size() == obj_size,
            r.count() == 0,
            r@ == Seq::<usize>::empty(),
    {
        Slab {
            free_list: None,
            links: Vec::new(),
            obj_size,
            count: 0,
            base: 0,
            free_idx: Ghost(Seq::empty()),
        }
    }

    /// Carves the pool's region starting at arena offset `heap_base` into
    /// blocks and threads them all, lowest first, into the free list.
    pub fn init(&mut self, heap_base: usize)
        requires
            old(self).wf(),
            old(self).count() == 0,
            heap_base + spec_slab_count(old(self).obj_size() as int) * old(self).obj_size()
                <= HEAP_SIZE,
        ensures
            final(self).wf(),
            final(self).obj_size() == old(self).obj_size(),
            final(self).count() == spec_slab_count(old(self).obj_size() as int),
            final(self).base() == heap_base,
            final(self)@ == Seq::new(
                final(self).count(),
                |k: int| (heap_base + k * old(self).obj_size()) as usize,
            ),
    {
        let cnt = slab_count(self.obj_size);
        let mut links: Vec<Option<usize>> = Vec::new();
        let mut i: usize = 0;
        while i < cnt
            invariant
                i <= cnt,
                links@.len() == i,
                forall|k: int|
                    0 <= k < i ==> #[trigger] links@[k] == if k + 1 < cnt {
                        Some((k + 1) as usize)
                    } else {
                        None
                    },
            decreases cnt - i,
        {
            let next = if i + 1 < cnt {
                Some(i + 1)
            } else {
                None
            };
            links.push(next);
            i = i + 1;
        }
        self.links = links;
        self.count = cnt;
        self.base = heap_base;
        self.free_idx = Ghost(Seq::new(cnt as nat, |k: int| k as usize));
        self.free_list = if cnt > 0 {
            Some(0)
        } else {
            None
        };
        assert(self@ =~= Seq::new(cnt as nat, |k: int| (heap_base + k * self.obj_size) as usize));
    }

    /// Takes the block at the head of the free list, or `None` when the list
    /// is empty.
    #[verifier::rlimit(50)]
    pub fn allocate(&mut self) -> (r: Option<usize>)
        requires
            old(self).wf(),
        ensures
            final(self).wf(),
            final(self).obj_size() == old(self).obj_size(),
            final(self).count() == old(self).count(),
            final(self).base() == old(self).base(),
            old(self)@.len() == 0 ==> r is None && final(self)@ == old(self)@,
            old(self)@.len() > 0 ==> r == Some(old(self)@[0]) && final(self)@ == old(
                self,
            )@.drop_first(),
    {
        proof {
            self.lemma_view_blocks();
        }
        match self.free_list {
            Some(block) => {
                let ghost free = self.free_idx@;
                assert(free[0] < self.count);
                proof {
                    lemma_block_bound(block as int, self.count as int, self.obj_size as int);
                }
                let next = self.links[block];
                self.free_list = next;
                self.free_idx = Ghost(free.drop_first());
                proof {
                    let nf = free.drop_first();
                    assert forall|k: int| 0 <= k < nf.len() implies #[trigger] nf[k] < self.count
                        && self.links@[nf[k] as int] == if k + 1 < nf.len() {
                        Some(nf[k + 1])
                    } else {
                        None
                    } by {
                        assert(nf[k] == free[k + 1]);
                    }
                    assert(nf.no_duplicates()) by {
                        assert forall|a: int, b: int|
                            0 <= a < nf.len() && 0 <= b < nf.len() && a != b implies nf[a]
                            != nf[b] by {
                            assert(nf[a] == free[a + 1] && nf[b] == free[b + 1]);
                        }
                    }
                    if nf.len() > 0 {
                        assert(self.links@[free[0] as int] == Some(free[1]));
                    }
                }
                assert(self@ =~= old(self)@.drop_first());
                Some(self.base + block * self.obj_size)
            },
            None => None,
        }
    }

    /// Puts block `ptr` back at the head of the free list.
    #[verifier::rlimit(50)]
    pub fn deallocate(&mut self, ptr: usize)
        requires
            old(self).wf(),
            old(self).holds(ptr),
            !old(self)@.contains(ptr),
        ensures
            final(self).wf(),
            final(self).obj_size() == old(self).obj_size(),
            final(self).count() == old(self).count(),
            final(self).base() == old(self).base(),
            final(self)@ == seq![ptr] + old(self)@,
    {
        proof {
            self.lemma_view_blocks();
        }
        let ghost free = self.free_idx@;
        let idx = (ptr - self.base) / self.obj_size;
        proof {
            lemma_exact_div((ptr - self.base) as int, self.obj_size as int);
            if free.contains(idx) {
                let k = free.index_of(idx);
                assert(self@[k] == ptr);
            }
        }
        let old_head = self.free_list;
        self.links.set(idx, old_head);
        self.free_list = Some(idx);
        self.free_idx = Ghost(seq![idx] + free);
        proof {
            let nf = self.free_idx@;
            assert forall|k: int| 0 <= k < nf.len() implies self.links@[#[trigger] nf[k] as int]
                == if k + 1 < nf.len() {
                Some(nf[k + 1])
            } else {
                None
            } by {
                if k > 0 {
                    assert(nf[k] == free[k - 1]);
                }
            }
            assert(nf.no_duplicates()) by {
                assert forall|a: int, b: int|
                    0 <= a < nf.len() && 0 <= b < nf.len() && a != b implies nf[a] != nf[b] by {
                    if a > 0 && b > 0 {
                        assert(nf[a] == free[a - 1] && nf[b] == free[b - 1]);
                    } else if a == 0 {
                        assert(nf[b] == free[b - 1]);
                    } else {
                        assert(nf[a] == free[a - 1]);
                    }
                }
            }
            assert forall|k: int| 0 <= k < nf.len() implies #[trigger] nf[k] < self.count by {
                if k > 0 {
                    assert(nf[k] == free[k - 1]);
                }
            }
        }
        assert(self@ =~= seq![ptr] + old(self)@);
    }
}

proof fn lemma_class_geometry(c: int)
    requires
        0 <= c < N_SLABS,
    ensures
        class_capacity(c) > 0,
        class_capacity(c) * class_size(c) == 4096,
        class_base(c) == c * 4096,
        class_base(c) + class_capacity(c) * class_size(c) <= HEAP_SIZE,
        class_size(c) % 16 == 0,
{
    assert(c * class_capacity(c) * class_size(c) == c * (class_capacity(c) * class_size(c)))
        by (nonlinear_arith);
    let n: int = if c == 0 {
        256
    } else if c == 1 {
        128
    } else if c == 2 {
        64
    } else {
        32
    };
    assert(n * (4 * class_size(c)) == 16384);
    lemma_fundamental_div_mod_converse(16384, 4 * class_size(c), n, 0);
}

proof fn lemma_fresh_pool(c: int)
    requires
        0 <= c < N_SLABS,
    ensures
        fresh_pool(c).no_duplicates(),
        forall|k: int| 0 <= k < fresh_pool(c).len() ==> is_block_of(c, #[trigger] fresh_pool(c)[k] as int),
        forall|h: int| is_block_of(c, h) ==> fresh_pool(c).contains(h as usize),
{
    lemma_class_geometry(c);
    let f = fresh_pool(c);
    let s = class_size(c);
    let n = class_capacity(c);
    assert forall|k: int| 0 <= k < f.len() implies is_block_of(c, #[trigger] f[k] as int) by {
        lemma_block_bound(k, n, s);
        lemma_block_offset(k, s);
    }
    assert forall|a: int, b: int| 0 <= a < f.len() && 0 <= b < f.len() && a != b implies f[a] != f[b] by {
        lemma_block_bound(a, n, s);
        lemma_block_bound(b, n, s);
        if f[a] == f[b] {
            lemma_block_injective(a, b, s);
        }
    }
    assert forall|h: int| is_block_of(c, h) implies f.contains(h as usize) by {
        let d = h - class_base(c);
        lemma_exact_div(d, s);
        let q = d / s;
        assert(q < n) by (nonlinear_arith)
            requires
                d == q * s,
                d < n * s,
                s > 0,
        ;
        assert(q >= 0) by (nonlinear_arith)
            requires
                d == q * s,
                d >= 0,
                s > 0,
        ;
        assert(f[q] == h as usize);
    }
}

/// The allocator: one pool per size class, ascending by block size, each
/// carved from its own share of the arena the first time anything is
/// allocated.
pub struct SimpleAllocator {
    slabs: Vec<Slab>,
}

impl SimpleAllocator {
    /// Free list of pool `c`; a pool not yet carved counts as fully free.
    pub closed spec fn pool(&self, c: int) -> Seq<usize> {
        if self.slabs@[c].count() == 0 {
            fresh_pool(c)
        } else {
            self.slabs@[c]@
        }
    }

    /// Free lists of all pools, by size class.
    pub closed spec fn pools(&self) -> Seq<Seq<usize>> {
        Seq::new(N_SLABS as nat, |c: int| self.pool(c))
    }

    /// One well-formed pool per size class, each carved, once carved, at
    /// its own share of the arena.
    pub closed spec fn wf(&self) -> bool {
        &&& self.slabs@.len() == N_SLABS
        &&& forall|c: int|
            0 <= c < N_SLABS ==> {
                let s = #[trigger] self.slabs@[c];
                &&& s.wf()
                &&& s.obj_size() == class_size(c)
                &&& s.count() != 0 ==> s.count() == class_capacity(c) && s.base() == class_base(c)
            }
    }

    proof fn lemma_pools_wf(&self)
        requires
            self.wf(),
        ensures
            pools_wf(self.pools()),
    {
        let p = self.pools();
        assert forall|c: int| 0 <= c < N_SLABS implies (#[trigger] p[c]).no_duplicates() && (
        forall|k: int| 0 <= k < p[c].len() ==> is_block_of(c, #[trigger] p[c][k] as int)) by {
            let s = self.slabs@[c];
            lemma_class_geometry(c);
            if s.count() == 0 {
                lemma_fresh_pool(c);
            } else {
                s.lemma_view_distinct();
                s.lemma_view_blocks();
                assert forall|k: int| 0 <= k < p[c].len() implies is_block_of(c, #[trigger] p[c][k] as int) by {
                    assert(s.holds(s@[k]));
                    let d = s@[k] - class_base(c);
                    let z = class_size(c);
                    lemma_exact_div(d, z);
                    assert(d < class_capacity(c) * z) by (nonlinear_arith)
                        requires
                            d == (d / z) * z,
                            d / z < class_capacity(c),
                            z > 0,
                    ;
                }
            }
        }
    }

    /// An allocator whose pools are all still uncarved.
    pub fn new() -> (r: Self)
        ensures
            r.wf(),
            r.pools() == fresh_pools(),
            pools_wf(r.pools()),
    {
        let mut slabs: Vec<Slab> = Vec::new();
        let mut i: usize = 0;
        while i < N_SLABS
            invariant
                i <= N_SLABS,
                slabs@.len() == i,
                forall|c: int|
                    0 <= c < i ==> {
                        let s = #[trigger] slabs@[c];
                        &&& s.wf()
                        &&& s.obj_size() == class_size(c)
                        &&& s.count() == 0
                    },
            decreases N_SLABS - i,
        {
            slabs.push(Slab::uninit(slab_size(i)));
            i = i + 1;
        }
        let r = SimpleAllocator { slabs };
        assert(r.pools() =~= fresh_pools());
        proof {
            r.lemma_pools_wf();
        }
        r
    }

    /// Accepts an arena location for compatibility; the arena is fixed, so
    /// nothing changes.
    pub fn init(&self, _heap_start: usize, _heap_size: usize) {
    }

    /// Carves every pool that has not been carved yet.
    fn carve_all(&mut self)
        requires
            old(self).wf(),
        ensures
            final(self).wf(),
            final(self).pools() == old(self).pools(),
            forall|c: int| 0 <= c < N_SLABS ==> #[trigger] final(self).slabs@[c].count() != 0,
    {
        let mut i: usize = 0;
        while i < N_SLABS
            invariant
                i <= N_SLABS,
                self.wf(),
                self.pools() == old(self).pools(),
                forall|c: int| 0 <= c < i ==> #[trigger] self.slabs@[c].count() != 0,
            decreases N_SLABS - i,
        {
            let sz = slab_size(i);
            proof {
                lemma_class_geometry(i as int);
            }
            if self.slabs[i].count == 0 {
                let base = i * slab_count(sz) * sz;
                let ghost before = self.pools();
                self.slabs[i].init(base);
                assert(self.slabs@[i as int]@ =~= fresh_pool(i as int));
                assert(self.pools() =~= before);
            }
            i = i + 1;
        }
    }

    /// Serves a request for `size` bytes from the smallest size class that
    /// fits it, carving the pools first if needed. Handles are aligned to the
    /// block size, whatever `align` asks.
    pub fn allocate(&mut self, size: usize, align: usize) -> (r: Result<usize, AllocError>)
        requires
            old(self).wf(),
        ensures
            final(self).wf(),
            (final(self).pools(), r) == alloc_step(old(self).pools(), size as int),
            pools_wf(final(self).pools()),
    {
        self.carve_all();
        let ghost p = self.pools();
        let c = size_class(size);
        if c == N_SLABS {
            proof {
                self.lemma_pools_wf();
            }
            return Err(AllocError::AllocationFailure);
        }
        let r = self.slabs[c].allocate();
        proof {
            assert(self.pools() =~= alloc_step(p, size as int).0);
            self.lemma_pools_wf();
        }
        match r {
            Some(b) => Ok(b),
            None => Err(AllocError::OutOfMemory),
        }
    }

    /// Returns block `handle`, allocated for `size` bytes, to the head of
    /// its class's free list. A size larger than every class is ignored.
    pub fn deallocate(&mut self, handle: usize, size: usize)
        requires
            old(self).wf(),
            class_of(size as int) < N_SLABS ==> is_block_of(class_of(size as int), handle as int)
                && !old(self).pools()[class_of(size as int)].contains(handle),
        ensures
            final(self).wf(),
            final(self).pools() == dealloc_step(old(self).pools(), handle, size as int),
            pools_wf(final(self).pools()),
    {
        let ghost p = self.pools();
        let c = size_class(size);
        if c == N_SLABS {
            proof {
                self.lemma_pools_wf();
            }
            return;
        }
        proof {
            let c = c as int;
            lemma_class_geometry(c);
            lemma_fresh_pool(c);
            let d = handle - class_base(c);
            lemma_exact_div(d, class_size(c));
            assert(d / class_size(c) < class_capacity(c)) by (nonlinear_arith)
                requires
                    d == (d / class_size(c)) * class_size(c),
                    d < class_capacity(c) * class_size(c),
                    class_size(c) > 0,
            ;
        }
        self.slabs[c].deallocate(handle);
        proof {
            assert(self.pools() =~= dealloc_step(p, handle, size as int));
            self.lemma_pools_wf();
        }
    }
}

} // verus!
