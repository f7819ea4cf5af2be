//! A self-contained allocator over a growable linear memory.
//!
//! Live blocks are kept in a list sorted by address; the free space is the
//! gaps between them, so a released block merges with its free neighbours
//! at once. Addresses are offsets into the linear memory, and zero stands
//! for the null result.
use vstd::prelude::*;
use vstd::arithmetic::div_mod::*;

verus! {

/// Bytes added to the linear memory by one growth step.
pub const PAGE_SIZE: usize = 65536;

/// The most the linear memory may grow to.
pub const MAX_MEMORY: usize = 0x1000_0000;

/// A live block: its address and the size that was asked for.
#[derive(Clone, Copy, Debug, PartialEq, Eq)]
pub struct Block {
    pub start: usize,
    pub size: usize,
}

/// Bytes a block occupies: its size, and at least one so that addresses stay distinct.
pub open spec fn span(size: int) -> int {
    if size == 0 {
        1
    } else {
        size
    }
}

pub open spec fn block_end(b: Block) -> int {
    b.start + span(b.size as int)
}

/// The blocks of a list, as pairs of address and size.
pub open spec fn live_of(s: Seq<Block>) -> Set<(int, int)> {
    Set::new(
        |p: (int, int)|
            exists|i: int| 0 <= i < s.len() && s[i].start == p.0 && s[i].size == p.1,
    )
}

/// Each block ends before the next one starts.
pub open spec fn sorted(s: Seq<Block>) -> bool {
    forall|i: int, j: int| 0 <= i < j < s.len() ==> block_end(#[trigger] s[i]) <= #[trigger] s[j].start
}

/// The alignment used for a request: zero counts as one.
pub open spec fn eff_align(align: int) -> int {
    if align == 0 {
        1
    } else {
        align
    }
}

/// Two blocks, given as address and size, share no byte.
pub open spec fn disjoint(p: (int, int), q: (int, int)) -> bool {
    p.0 + span(p.1) <= q.0 || q.0 + span(q.1) <= p.0
}

/// The smallest multiple of `a` that is at least `x`.
pub open spec fn round_up(x: int, a: int) -> int {
    if x % a == 0 {
        x
    } else {
        x + (a - x % a)
    }
}

pub struct FallbackAllocator {
    mem: Vec<u8>,
    blocks: Vec<Block>,
}

impl FallbackAllocator {
    /// The linear memory.
    pub closed spec fn memory(&self) -> Seq<u8> {
        self.mem@
    }

    /// The live blocks, as pairs of address and requested size.
    pub closed spec fn live(&self) -> Set<(int, int)> {
        live_of(self.blocks@)
    }

    pub closed spec fn wf(&self) -> bool {
        &&& self.mem@.len() <= MAX_MEMORY
        &&& forall|i: int|
            0 <= i < self.blocks@.len() ==> {
                &&& 0 < #[trigger] self.blocks@[i].start
                &&& self.blocks@[i].size <= MAX_MEMORY
                &&& block_end(self.blocks@[i]) <= self.mem@.len()
            }
        &&& sorted(self.blocks@)
    }

    /// An allocator with an empty memory and no live block.
    pub fn new() -> (r: FallbackAllocator)
        ensures
            r.wf(),
            r.live() == Set::<(int, int)>::empty(),
            r.memory().len() == 0,
    {
        let r = FallbackAllocator { mem: Vec::new(), blocks: Vec::new() };
        proof {
            assert(r.live() =~= Set::<(int, int)>::empty());
        }
        r
    }

    /// Size of the linear memory in bytes.
    pub fn memory_len(&self) -> (r: usize)
        ensures
            r == self.memory().len(),
    {
        self.mem.len()
    }

    /// The byte at `addr` of the linear memory.
    pub fn byte_at(&self, addr: usize) -> (r: u8)
        requires
            addr < self.memory().len(),
        ensures
            r == self.memory()[addr as int],
    {
        self.mem[addr]
    }

    /// Writes `value` at `addr` of the linear memory.
    pub fn set_byte(&mut self, addr: usize, value: u8)
        requires
            old(self).wf(),
            addr < old(self).memory().len(),
        ensures
            final(self).wf(),
            final(self).live() == old(self).live(),
            final(self).memory() == old(self).memory().update(addr as int, value),
    {
        self.mem.set(addr, value);
    }
}

fn round_up_exec(x: usize, a: usize) -> (r: usize)
    requires
        a > 0,
        x + a <= usize::MAX,
    ensures
        r == round_up(x as int, a as int),
        r % a == 0,
        x <= r < x + a,
{
    let m: usize = x % a;
    proof {
        lemma_fundamental_div_mod(x as int, a as int);
        let q = (x as int) / (a as int);
        if m != 0 {
            assert(x + (a - m) == (a as int) * (q + 1)) by (nonlinear_arith)
                requires
                    x as int == (a as int) * q + m,
            ;
            lemma_mod_multiples_basic(q + 1, a as int);
        }
    }
    if m == 0 {
        x
    } else {
        x + (a - m)
    }
}



proof fn lemma_live_insert(s: Seq<Block>, k: int, b: Block)
    requires
        0 <= k <= s.len(),
    ensures
        live_of(s.insert(k, b)) == live_of(s).insert((b.start as int, b.size as int)),
{
    let t = s.insert(k, b);
    let q = (b.start as int, b.size as int);
    assert forall|p: (int, int)| #[trigger]
        live_of(t).contains(p) <==> live_of(s).insert(q).contains(p) by {
        if live_of(t).contains(p) {
            let i = choose|i: int| 0 <= i < t.len() && t[i].start == p.0 && t[i].size == p.1;
            if i < k {
                assert(s[i] == t[i]);
            } else if i > k {
                assert(s[i - 1] == t[i]);
            }
        }
        if live_of(s).contains(p) {
            let i = choose|i: int| 0 <= i < s.len() && s[i].start == p.0 && s[i].size == p.1;
            if i < k {
                assert(t[i] == s[i]);
            } else {
                assert(t[i + 1] == s[i]);
            }
        }
        if p == q {
            assert(t[k] == b);
        }
    }
    assert(live_of(t) =~= live_of(s).insert(q));
}

proof fn lemma_live_remove(s: Seq<Block>, k: int)
    requires
        0 <= k < s.len(),
        sorted(s),
    ensures
        live_of(s.remove(k)) == live_of(s).remove((s[k].start as int, s[k].size as int)),
{
    let t = s.remove(k);
    let q = (s[k].start as int, s[k].size as int);
    assert forall|p: (int, int)| #[trigger]
        live_of(t).contains(p) <==> live_of(s).remove(q).contains(p) by {
        if live_of(t).contains(p) {
            let i = choose|i: int| 0 <= i < t.len() && t[i].start == p.0 && t[i].size == p.1;
            if i < k {
                assert(s[i] == t[i]);
                assert(block_end(s[i]) <= s[k].start);
            } else {
                assert(s[i + 1] == t[i]);
                assert(block_end(s[k]) <= s[i + 1].start);
            }
        }
        if live_of(s).remove(q).contains(p) {
            let i = choose|i: int| 0 <= i < s.len() && s[i].start == p.0 && s[i].size == p.1;
            if i < k {
                assert(t[i] == s[i]);
            } else {
                assert(i != k);
                assert(t[i - 1] == s[i]);
            }
        }
    }
    assert(live_of(t) =~= live_of(s).remove(q));
}

proof fn lemma_sorted_insert(s: Seq<Block>, k: int, b: Block)
    requires
        0 <= k <= s.len(),
        sorted(s),
        k > 0 ==> block_end(s[k - 1]) <= b.start,
        k < s.len() ==> block_end(b) <= s[k].start,
    ensures
        sorted(s.insert(k, b)),
{
    let t = s.insert(k, b);
    assert forall|i: int, j: int| 0 <= i < j < t.len() implies block_end(#[trigger] t[i])
        <= #[trigger] t[j].start by {
        if j < k {
            assert(t[i] == s[i] && t[j] == s[j]);
        } else if j == k {
            assert(t[i] == s[i]);
            if i < k - 1 {
                assert(block_end(s[i]) <= s[k - 1].start);
            }
        } else if i < k {
            assert(t[i] == s[i] && t[j] == s[j - 1]);
        } else if i == k {
            assert(t[j] == s[j - 1]);
            if j - 1 > k {
                assert(block_end(s[k]) <= s[j - 1].start);
            }
        } else {
            assert(t[i] == s[i - 1] && t[j] == s[j - 1]);
        }
    }
}

proof fn lemma_sorted_remove(s: Seq<Block>, k: int)
    requires
        0 <= k < s.len(),
        sorted(s),
    ensures
        sorted(s.remove(k)),
{
    let t = s.remove(k);
    assert forall|i: int, j: int| 0 <= i < j < t.len() implies block_end(#[trigger] t[i])
        <= #[trigger] t[j].start by {
        let i0 = if i < k { i } else { i + 1 };
        let j0 = if j < k { j } else { j + 1 };
        assert(t[i] == s[i0] && t[j] == s[j0]);
    }
}

impl FallbackAllocator {
    /// Grows the linear memory with zero bytes up to `new_len` bytes.
    fn grow_to(&mut self, new_len: usize)
        requires
            old(self).wf(),
            old(self).mem@.len() <= new_len <= MAX_MEMORY,
        ensures
            final(self).wf(),
            final(self).blocks@ == old(self).blocks@,
            final(self).mem@.len() == new_len,
            final(self).mem@.subrange(0, old(self).mem@.len() as int) == old(self).mem@,
            forall|k: int| old(self).mem@.len() <= k < new_len ==> final(self).mem@[k] == 0,
    {
        let ghost old_mem = self.mem@;
        while self.mem.len() < new_len
            invariant
                self.wf(),
                self.blocks@ == old(self).blocks@,
                old_mem.len() <= self.mem@.len() <= new_len <= MAX_MEMORY,
                self.mem@.subrange(0, old_mem.len() as int) == old_mem,
                forall|k: int| old_mem.len() <= k < self.mem@.len() ==> self.mem@[k] == 0,
            decreases new_len - self.mem@.len(),
        {
            self.mem.push(0);
            assert(self.mem@.subrange(0, old_mem.len() as int) =~= old_mem);
        }
    }

    /// Allocates a block of `size` bytes whose address is a multiple of
    /// `align` (zero counts as one). Returns zero, and changes nothing, when
    /// the linear memory cannot hold it.
    pub fn allocate(&mut self, size: usize, align: usize) -> (r: usize)
        requires
            old(self).wf(),
        ensures
            final(self).wf(),
            r == 0 ==> final(self).live() == old(self).live() && final(self).memory() == old(self).memory(),
            r != 0 ==> final(self).live() == old(self).live().insert((r as int, size as int)),
            r != 0 ==> (r as int) % eff_align(align as int) == 0,
            r != 0 ==> r + span(size as int) <= final(self).memory().len(),
            r != 0 ==> forall|p: (int, int)| #[trigger]
                old(self).live().contains(p) ==> disjoint(p, (r as int, size as int)),
            final(self).memory().len() >= old(self).memory().len(),
            final(self).memory().subrange(0, old(self).memory().len() as int) == old(self).memory(),
            forall|k: int|
                old(self).memory().len() <= k < final(self).memory().len() ==> final(self).memory()[k] == 0,
            old(self).memory().len() + size + eff_align(align as int) + PAGE_SIZE + 1
                <= MAX_MEMORY ==> r != 0,
    {
        proof {
            assert(self.mem@.subrange(0, self.mem@.len() as int) =~= self.mem@);
        }
        let a: usize = if align == 0 {
            1
        } else {
            align
        };
        if size > MAX_MEMORY || a > MAX_MEMORY {
            return 0;
        }
        let sp: usize = if size == 0 {
            1
        } else {
            size
        };
        let n = self.blocks.len();
        let mut i: usize = 0;
        let mut gap_start: usize = 1;
        while i < n
            invariant
                self.wf(),
                self.blocks@ == old(self).blocks@,
                self.mem@ == old(self).mem@,
                n == self.blocks@.len(),
                i <= n,
                1 <= gap_start <= self.mem@.len() + 1,
                gap_start <= MAX_MEMORY,
                a == eff_align(align as int),
                1 <= a <= MAX_MEMORY,
                size <= MAX_MEMORY,
                sp == span(size as int),
                i > 0 ==> gap_start == block_end(self.blocks@[i - 1]),
            decreases n - i,
        {
            let c = round_up_exec(gap_start, a);
            let next = self.blocks[i].start;
            if c + sp <= next {
                let b = Block { start: c, size };
                proof {
                    lemma_live_insert(self.blocks@, i as int, b);
                    lemma_sorted_insert(self.blocks@, i as int, b);
                    lemma_insert_disjoint(self.blocks@, i as int, b);
                }
                self.blocks.insert(i, b);
                proof {
                    let t = self.blocks@;
                    assert forall|j: int| 0 <= j < t.len() implies {
                        &&& 0 < #[trigger] t[j].start
                        &&& t[j].size <= MAX_MEMORY
                        &&& block_end(t[j]) <= self.mem@.len()
                    } by {
                        if j < i {
                            assert(t[j] == old(self).blocks@[j]);
                        } else if j > i {
                            assert(t[j] == old(self).blocks@[j - 1]);
                        } else {
                            assert(t[j] == b);
                        }
                    }
                }
                return c;
            }
            let bs = self.blocks[i];
            gap_start = bs.start + if bs.size == 0 {
                1
            } else {
                bs.size
            };
            i = i + 1;
        }
        let c = round_up_exec(gap_start, a);
        if c + sp > MAX_MEMORY {
            return 0;
        }
        if c + sp > self.mem.len() {
            let new_len = round_up_exec(c + sp, PAGE_SIZE);
            if new_len > MAX_MEMORY {
                return 0;
            }
            self.grow_to(new_len);
        }
        let b = Block { start: c, size };
        proof {
            lemma_live_insert(self.blocks@, n as int, b);
            lemma_sorted_insert(self.blocks@, n as int, b);
            lemma_insert_disjoint(self.blocks@, n as int, b);
        }
        let ghost pre = self.blocks@;
        self.blocks.push(b);
        proof {
            let t = self.blocks@;
            assert(t =~= pre.insert(n as int, b));
            assert forall|j: int| 0 <= j < t.len() implies {
                &&& 0 < #[trigger] t[j].start
                &&& t[j].size <= MAX_MEMORY
                &&& block_end(t[j]) <= self.mem@.len()
            } by {
                if j < n {
                    assert(t[j] == pre[j]);
                }
            }
        }
        c
    }
}


proof fn lemma_disjoint_indices(s: Seq<Block>, i: int, j: int)
    requires
        sorted(s),
        0 <= i < s.len(),
        0 <= j < s.len(),
        i != j,
    ensures
        disjoint((s[i].start as int, s[i].size as int), (s[j].start as int, s[j].size as int)),
{
    if i < j {
        assert(block_end(s[i]) <= s[j].start);
    } else {
        assert(block_end(s[j]) <= s[i].start);
    }
}

proof fn lemma_insert_disjoint(s: Seq<Block>, k: int, b: Block)
    requires
        0 <= k <= s.len(),
        sorted(s.insert(k, b)),
    ensures
        forall|p: (int, int)| #[trigger]
            live_of(s).contains(p) ==> disjoint(p, (b.start as int, b.size as int)),
{
    let t = s.insert(k, b);
    assert forall|p: (int, int)| #[trigger] live_of(s).contains(p) implies disjoint(
        p,
        (b.start as int, b.size as int),
    ) by {
        let j0 = choose|i: int| 0 <= i < s.len() && s[i].start == p.0 && s[i].size == p.1;
        let j = if j0 < k { j0 } else { j0 + 1 };
        assert(t[j] == s[j0]);
        assert(t[k] == b);
        lemma_disjoint_indices(t, j, k);
    }
}

/// Any two different live blocks of a well-formed allocator occupy
/// disjoint address ranges.
pub proof fn lemma_live_blocks_disjoint(a: &FallbackAllocator, p: (int, int), q: (int, int))
    requires
        a.wf(),
        a.live().contains(p),
        a.live().contains(q),
        p != q,
    ensures
        disjoint(p, q),
{
    let s = a.blocks@;
    let i = choose|i: int| 0 <= i < s.len() && s[i].start == p.0 && s[i].size == p.1;
    let j = choose|i: int| 0 <= i < s.len() && s[i].start == q.0 && s[i].size == q.1;
    lemma_disjoint_indices(s, i, j);
}

/// Every live block lies inside the linear memory, above address zero.
pub proof fn lemma_live_block_in_memory(a: &FallbackAllocator, p: (int, int))
    requires
        a.wf(),
        a.live().contains(p),
    ensures
        0 < p.0,
        p.0 + span(p.1) <= a.memory().len(),
{
    let s = a.blocks@;
    let i = choose|i: int| 0 <= i < s.len() && s[i].start == p.0 && s[i].size == p.1;
    assert(0 < s[i].start);
}


impl FallbackAllocator {
    /// The index of the live block at address `ptr`, if there is one.
    fn find(&self, ptr: usize) -> (r: Option<usize>)
        ensures
            r matches Some(i) ==> i < self.blocks@.len() && self.blocks@[i as int].start == ptr,
            r is None ==> forall|i: int|
                0 <= i < self.blocks@.len() ==> #[trigger] self.blocks@[i].start != ptr,
    {
        let n = self.blocks.len();
        let mut i: usize = 0;
        while i < n
            invariant
                n == self.blocks@.len(),
                i <= n,
                forall|j: int| 0 <= j < i ==> #[trigger] self.blocks@[j].start != ptr,
            decreases n - i,
        {
            if self.blocks[i].start == ptr {
                return Some(i);
            }
            i = i + 1;
        }
        None
    }

    /// Releases the live block at `ptr` that was asked for with `size` bytes;
    /// changes nothing when there is no such block.
    pub fn deallocate(&mut self, ptr: usize, size: usize, align: usize)
        requires
            old(self).wf(),
        ensures
            final(self).wf(),
            final(self).live() == old(self).live().remove((ptr as int, size as int)),
            final(self).memory() == old(self).memory(),
    {
        let ghost q = (ptr as int, size as int);
        match self.find(ptr) {
            Some(i) => {
                if self.blocks[i].size == size {
                    proof {
                        lemma_live_remove(self.blocks@, i as int);
                        lemma_sorted_remove(self.blocks@, i as int);
                    }
                    let ghost pre = self.blocks@;
                    self.blocks.remove(i);
                    proof {
                        let t = self.blocks@;
                        assert forall|j: int| 0 <= j < t.len() implies {
                            &&& 0 < #[trigger] t[j].start
                            &&& t[j].size <= MAX_MEMORY
                            &&& block_end(t[j]) <= self.mem@.len()
                        } by {
                            if j < i {
                                assert(t[j] == pre[j]);
                            } else {
                                assert(t[j] == pre[j + 1]);
                            }
                        }
                    }
                } else {
                    proof {
                        let sq = self.blocks@;
                        if self.live().contains(q) {
                            let j = choose|j: int|
                                0 <= j < sq.len() && sq[j].start == q.0 && sq[j].size == q.1;
                            lemma_disjoint_indices(sq, i as int, j);
                        }
                        assert(self.live().remove(q) =~= self.live());
                    }
                }
            },
            None => {
                proof {
                    assert(!self.live().contains(q));
                    assert(self.live().remove(q) =~= self.live());
                }
            },
        }
    }

    /// Like `allocate`, and the block's bytes are all zero.
    pub fn allocate_zeroed(&mut self, size: usize, align: usize) -> (r: usize)
        requires
            old(self).wf(),
        ensures
            final(self).wf(),
            r == 0 ==> final(self).live() == old(self).live() && final(self).memory() == old(self).memory(),
            r != 0 ==> final(self).live() == old(self).live().insert((r as int, size as int)),
            r != 0 ==> (r as int) % eff_align(align as int) == 0,
            r != 0 ==> r + span(size as int) <= final(self).memory().len(),
            r != 0 ==> forall|p: (int, int)| #[trigger]
                old(self).live().contains(p) ==> disjoint(p, (r as int, size as int)),
            r != 0 ==> forall|k: int| r <= k < r + size ==> final(self).memory()[k] == 0,
            final(self).memory().len() >= old(self).memory().len(),
            forall|k: int|
                0 <= k < old(self).memory().len() && !(r != 0 && r <= k < r + size) ==> final(self).memory()[k]
                    == old(self).memory()[k],
            old(self).memory().len() + size + eff_align(align as int) + PAGE_SIZE + 1
                <= MAX_MEMORY ==> r != 0,
    {
        let r = self.allocate(size, align);
        if r == 0 {
            return 0;
        }
        let ghost mid = self.mem@;
        proof {
            assert forall|k: int| 0 <= k < old(self).mem@.len() implies mid[k] == old(self).mem@[k] by {
                assert(mid.subrange(0, old(self).mem@.len() as int)[k] == mid[k]);
            }
        }
        let mut k: usize = 0;
        while k < size
            invariant
                self.wf(),
                self.live() == old(self).live().insert((r as int, size as int)),
                r + span(size as int) <= self.mem@.len(),
                self.mem@.len() == mid.len(),
                k <= size,
                forall|j: int| r <= j < r + k ==> self.mem@[j] == 0,
                forall|j: int| 0 <= j < mid.len() && !(r <= j < r + k) ==> self.mem@[j] == mid[j],
            decreases size - k,
        {
            self.mem.set(r + k, 0);
            k = k + 1;
        }
        r
    }
}


/// The smaller of two sizes.
pub open spec fn min_size(a: int, b: int) -> int {
    if a <= b {
        a
    } else {
        b
    }
}

impl FallbackAllocator {
    /// Resizes the live block at `ptr` to `new_size` bytes. The block stays
    /// where it is when the room after it allows; else a new block aligned to
    /// `old_align` receives the first `min(old_size, new_size)` bytes and the
    /// old block is released. Returns zero, and changes nothing, when the
    /// linear memory cannot hold the new block.
    pub fn reallocate(&mut self, ptr: usize, old_size: usize, old_align: usize, new_size: usize) -> (r: usize)
        requires
            old(self).wf(),
            old(self).live().contains((ptr as int, old_size as int)),
        ensures
            final(self).wf(),
            r == 0 ==> final(self).live() == old(self).live() && final(self).memory() == old(self).memory(),
            r != 0 ==> final(self).live() == old(self).live().remove((ptr as int, old_size as int)).insert(
                (r as int, new_size as int),
            ),
            r != 0 ==> r == ptr || (r as int) % eff_align(old_align as int) == 0,
            r != 0 ==> r + span(new_size as int) <= final(self).memory().len(),
            r != 0 ==> forall|k: int|
                0 <= k < min_size(old_size as int, new_size as int) ==> #[trigger] final(self).memory()[r
                    + k] == old(self).memory()[ptr + k],
            final(self).memory().len() >= old(self).memory().len(),
            forall|k: int|
                0 <= k < old(self).memory().len() && !(r != 0 && r <= k < r + new_size) ==> final(self).memory()[k]
                    == old(self).memory()[k],
            old(self).memory().len() + new_size + eff_align(old_align as int) + PAGE_SIZE + 1
                <= MAX_MEMORY ==> r != 0,
    {
        let ghost p = (ptr as int, old_size as int);
        let ghost s = self.blocks@;
        let ghost w = choose|j: int| 0 <= j < s.len() && s[j].start == p.0 && s[j].size == p.1;
        let i = match self.find(ptr) {
            Some(i) => i,
            None => {
                proof {
                    assert(s[w].start == ptr);
                }
                return 0;
            },
        };
        proof {
            if w != i {
                lemma_disjoint_indices(s, w, i as int);
            }
            lemma_live_block_in_memory(self, p);
        }
        let n = self.blocks.len();
        let room_end: usize = if i + 1 < n {
            self.blocks[i + 1].start
        } else {
            self.mem.len()
        };
        let nsp: usize = if new_size == 0 {
            1
        } else {
            new_size
        };
        if new_size <= MAX_MEMORY && ptr + nsp <= room_end {
            let nb = Block { start: ptr, size: new_size };
            proof {
                lemma_live_remove(s, i as int);
                lemma_sorted_remove(s, i as int);
            }
            self.blocks.remove(i);
            let ghost s1 = self.blocks@;
            proof {
                if i > 0 {
                    assert(s1[i - 1] == s[i - 1]);
                    assert(block_end(s[i - 1]) <= s[i as int].start);
                }
                if i + 1 < n {
                    assert(s1[i as int] == s[i + 1]);
                }
                lemma_live_insert(s1, i as int, nb);
                lemma_sorted_insert(s1, i as int, nb);
            }
            self.blocks.insert(i, nb);
            proof {
                let t = self.blocks@;
                assert forall|j: int| 0 <= j < t.len() implies {
                    &&& 0 < #[trigger] t[j].start
                    &&& t[j].size <= MAX_MEMORY
                    &&& block_end(t[j]) <= self.mem@.len()
                } by {
                    if j < i {
                        assert(t[j] == s[j]);
                    } else if j > i {
                        assert(t[j] == s[j]);
                    } else {
                        assert(t[j] == nb);
                    }
                }
            }
            return ptr;
        }
        let q = self.allocate(new_size, old_align);
        if q == 0 {
            return 0;
        }
        let ghost mid = self.mem@;
        let ghost qq = (q as int, new_size as int);
        let ghost live1 = self.live();
        proof {
            assert(disjoint(p, qq));
            assert forall|k: int| 0 <= k < old(self).mem@.len() implies mid[k] == old(self).mem@[k] by {
                assert(mid.subrange(0, old(self).mem@.len() as int)[k] == mid[k]);
            }
        }
        let m: usize = if old_size <= new_size {
            old_size
        } else {
            new_size
        };
        let mut k: usize = 0;
        while k < m
            invariant
                self.wf(),
                self.live() == live1,
                live1.contains(p),
                p == (ptr as int, old_size as int),
                qq == (q as int, new_size as int),
                disjoint(p, qq),
                q + span(new_size as int) <= self.mem@.len(),
                ptr + span(old_size as int) <= old(self).mem@.len() <= mid.len(),
                forall|j: int| 0 <= j < old(self).mem@.len() ==> mid[j] == old(self).mem@[j],
                self.mem@.len() == mid.len(),
                m == min_size(old_size as int, new_size as int),
                k <= m,
                forall|j: int| 0 <= j < k ==> #[trigger] self.mem@[q + j] == old(self).mem@[ptr + j],
                forall|j: int| 0 <= j < mid.len() && !(q <= j < q + k) ==> self.mem@[j] == mid[j],
            decreases m - k,
        {
            proof {
                assert(p.0 == ptr && p.1 == old_size && qq.0 == q && qq.1 == new_size);
                assert(k < old_size && k < new_size);
                assert(!(q <= ptr + k < q + k));
                assert(self.mem@[ptr + k] == mid[ptr + k]);
            }
            let byte = self.mem[ptr + k];
            let ghost pre = self.mem@;
            self.mem.set(q + k, byte);
            proof {
                assert forall|j: int| 0 <= j < k + 1 implies #[trigger] self.mem@[q + j] == old(self).mem@[ptr + j] by {
                    if j < k {
                        assert(pre[q + j] == old(self).mem@[ptr + j]);
                    }
                }
            }
            k = k + 1;
        }
        self.deallocate(ptr, old_size, old_align);
        proof {
            assert(p != qq);
            assert(live1 == old(self).live().insert(qq));
            assert(old(self).live().insert(qq).remove(p) =~= old(self).live().remove(p).insert(qq));
        }
        q
    }
}


/// Allocating a block and releasing it again with the same size leaves the
/// allocator with the blocks it had, each holding the bytes it held. `a1` is
/// the allocator after `allocate` returned `r`, and `a2` after `deallocate`
/// of `r`, as their contracts describe them.
pub proof fn lemma_alloc_dealloc_round_trip(
    a0: FallbackAllocator,
    a1: FallbackAllocator,
    a2: FallbackAllocator,
    r: usize,
    size: usize,
)
    requires
        a0.wf(),
        r == 0 ==> a1.live() == a0.live() && a1.memory() == a0.memory(),
        r != 0 ==> a1.live() == a0.live().insert((r as int, size as int)),
        r != 0 ==> forall|p: (int, int)| #[trigger]
            a0.live().contains(p) ==> disjoint(p, (r as int, size as int)),
        a1.memory().len() >= a0.memory().len(),
        a1.memory().subrange(0, a0.memory().len() as int) == a0.memory(),
        a2.live() == a1.live().remove((r as int, size as int)),
        a2.memory() == a1.memory(),
    ensures
        a2.live() == a0.live(),
        forall|p: (int, int), k: int|
            #![trigger a0.live().contains(p), a2.memory()[k]]
            a0.live().contains(p) && p.0 <= k < p.0 + p.1 ==> a2.memory()[k] == a0.memory()[k],
{
    let q = (r as int, size as int);
    if r != 0 {
        if a0.live().contains(q) {
            assert(disjoint(q, q));
        }
        assert(a0.live().insert(q).remove(q) =~= a0.live());
    } else {
        if a0.live().contains(q) {
            lemma_live_block_in_memory(&a0, q);
        }
        assert(a0.live().remove(q) =~= a0.live());
    }
    assert forall|p: (int, int), k: int|
        #![trigger a0.live().contains(p), a2.memory()[k]]
        a0.live().contains(p) && p.0 <= k < p.0 + p.1 implies a2.memory()[k] == a0.memory()[k] by {
        lemma_live_block_in_memory(&a0, p);
        assert(a1.memory().subrange(0, a0.memory().len() as int)[k] == a1.memory()[k]);
    }
}

} // verus!
