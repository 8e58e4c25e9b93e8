use vstd::prelude::*;
use crate::page::PAGE_SIZE;

verus! {

/// The number of whole pages needed to hold `bytes` bytes.
pub open spec fn pages_for(bytes: int) -> int {
    (bytes + PAGE_SIZE - 1) / (PAGE_SIZE as int)
}

/// The bytes to skip from `cursor` to reach a multiple of `align`.
pub open spec fn padding(cursor: int, align: int) -> int {
    (align - cursor % align) % align
}

/// The pages of the host that were mapped when the program started: those
/// that hold everything below `heap_base`.
pub fn initial_pages(heap_base: usize) -> (r: usize)
    ensures
        r == pages_for(heap_base as int),
{
    heap_base / PAGE_SIZE + if heap_base % PAGE_SIZE == 0 {
        0
    } else {
        1
    }
}

/// The bytes of the last initial page that lie below `heap_base`, and so
/// cannot be handed out (a whole page when `heap_base` is page-aligned).
pub fn heap_waste(heap_base: usize) -> (r: usize)
    requires
        heap_base + PAGE_SIZE <= usize::MAX,
    ensures
        r == PAGE_SIZE - (pages_for(heap_base as int) * PAGE_SIZE - heap_base),
        0 < r <= PAGE_SIZE,
{
    let pages = initial_pages(heap_base);
    assert(pages * PAGE_SIZE - PAGE_SIZE < heap_base <= pages * PAGE_SIZE);
    let available = (pages * PAGE_SIZE) - heap_base;
    PAGE_SIZE - available
}

/// The abstract state of a bump allocator: the next free address and the
/// bytes left after it in the pages acquired so far.
pub struct BumpState {
    pub cursor: nat,
    pub free: nat,
}

/// What one allocation hands back: the address of the new block, and how
/// many more pages the host must map before it is used.
#[derive(Clone, Copy, Debug, PartialEq, Eq, Structural)]
pub struct Allocation {
    pub address: usize,
    pub grow_pages: usize,
}

impl BumpState {
    /// The state a bump allocator starts in for a heap that begins at
    /// `heap_base`.
    pub open spec fn start(heap_base: int) -> BumpState {
        BumpState {
            cursor: heap_base as nat,
            free: (pages_for(heap_base) * PAGE_SIZE - heap_base) as nat,
        }
    }

    /// The acquired memory ends on a page boundary.
    pub open spec fn wf(self) -> bool {
        (self.cursor + self.free) % (PAGE_SIZE as nat) == 0
    }

    /// The bytes an allocation of `size` bytes aligned to `align` uses up:
    /// the padding to the alignment and the block itself.
    pub open spec fn needed(self, size: int, align: int) -> int {
        padding(self.cursor as int, align) + size
    }

    /// The pages to request for that allocation: none when it fits in what
    /// is left, else just enough pages to cover the shortfall.
    pub open spec fn grow_pages(self, size: int, align: int) -> int {
        let total = self.needed(size, align);
        if total > self.free {
            pages_for(total - self.free)
        } else {
            0
        }
    }

    /// The address of that allocation: the cursor rounded up to `align`.
    pub open spec fn address(self, size: int, align: int) -> int {
        self.cursor + padding(self.cursor as int, align)
    }

    /// The state after that allocation.
    pub open spec fn after(self, size: int, align: int) -> BumpState {
        let total = self.needed(size, align);
        BumpState {
            cursor: (self.cursor + total) as nat,
            free: (self.free + self.grow_pages(size, align) * PAGE_SIZE - total) as nat,
        }
    }
}

/// The state after each of the allocations `reqs` (size, alignment) in
/// turn, and the addresses they returned, in order.
pub open spec fn run_allocs(s: BumpState, reqs: Seq<(nat, nat)>) -> (BumpState, Seq<int>)
    decreases reqs.len(),
{
    if reqs.len() == 0 {
        (s, Seq::empty())
    } else {
        let (t, addrs) = run_allocs(s, reqs.drop_last());
        let (size, align) = reqs.last();
        (t.after(size as int, align as int), addrs.push(t.address(size as int, align as int)))
    }
}

/// Over any series of allocations, the addresses come in call order and the
/// blocks `[address, address + size)` never overlap: each block ends at or
/// before the next one starts, also across page growth. A block of at least
/// one byte lies strictly before every later address.
pub proof fn lemma_bump_monotonic(s: BumpState, reqs: Seq<(nat, nat)>)
    requires
        forall|i: int| 0 <= i < reqs.len() ==> #[trigger] reqs[i].1 > 0,
    ensures
        ({
            let (t, addrs) = run_allocs(s, reqs);
            &&& addrs.len() == reqs.len()
            &&& s.cursor <= t.cursor
            &&& forall|i: int|
                0 <= i < addrs.len() ==> s.cursor <= #[trigger] addrs[i] && addrs[i] + reqs[i].0
                    <= t.cursor
            &&& forall|i: int, j: int|
                0 <= i < j < addrs.len() ==> #[trigger] addrs[i] + reqs[i].0 <= #[trigger] addrs[j]
            &&& forall|i: int, j: int|
                0 <= i < j < addrs.len() && reqs[i].0 > 0 ==> #[trigger] addrs[i]
                    < #[trigger] addrs[j]
        }),
    decreases reqs.len(),
{
    if reqs.len() > 0 {
        let prefix = reqs.drop_last();
        assert forall|i: int| 0 <= i < prefix.len() implies #[trigger] prefix[i].1 > 0 by {
            assert(prefix[i] == reqs[i]);
        }
        lemma_bump_monotonic(s, prefix);
        let (t, addrs) = run_allocs(s, prefix);
        let (size, align) = reqs.last();
        assert(reqs.last().1 > 0);
        let a = t.address(size as int, align as int);
        assert(padding(t.cursor as int, align as int) >= 0);
        let all = addrs.push(a);
        let u = t.after(size as int, align as int);
        assert(run_allocs(s, reqs) == (u, all));
        assert(t.cursor <= a && a + size == u.cursor);
        assert forall|i: int| 0 <= i < all.len() implies s.cursor <= #[trigger] all[i] && all[i]
            + reqs[i].0 <= u.cursor by {
            if i < addrs.len() {
                assert(all[i] == addrs[i] && reqs[i] == prefix[i]);
            }
        }
        assert forall|i: int, j: int| 0 <= i < j < all.len() implies #[trigger] all[i]
            + reqs[i].0 <= #[trigger] all[j] by {
            assert(all[i] == addrs[i] && reqs[i] == prefix[i]);
            if j < addrs.len() {
                assert(all[j] == addrs[j]);
            }
        }
        assert forall|i: int, j: int|
            0 <= i < j < all.len() && reqs[i].0 > 0 implies #[trigger] all[i]
                < #[trigger] all[j] by {
            assert(all[i] + reqs[i].0 <= all[j]);
        }
    }
}

/// When an allocation needs `k` whole pages and `r` more bytes beyond what
/// is left (`0 < r < PAGE_SIZE`), exactly `k + 1` pages are requested.
pub proof fn lemma_page_growth(s: BumpState, size: int, align: int, k: int, r: int)
    requires
        k >= 0,
        0 < r < PAGE_SIZE,
        s.needed(size, align) == s.free + k * PAGE_SIZE + r,
    ensures
        s.grow_pages(size, align) == k + 1,
{
    assert((k * 65536 + r + 65535) / 65536 == k + 1) by (nonlinear_arith)
        requires
            k >= 0,
            0 < r < 65536,
    ;
}

/// A monotonic allocator over linear memory: it hands out addresses from a
/// cursor that only moves forward, and asks for more pages when the ones it
/// has run out. Nothing it hands out is ever reclaimed.
pub struct BumpAllocator {
    cursor: usize,
    free_space: usize,
}

impl View for BumpAllocator {
    type V = BumpState;

    closed spec fn view(&self) -> BumpState {
        BumpState { cursor: self.cursor as nat, free: self.free_space as nat }
    }
}

impl BumpAllocator {
    /// An allocator for a heap that begins at `heap_base`, owning what is
    /// left of the last initial page.
    pub fn new(heap_base: usize) -> (r: Self)
        requires
            heap_base + PAGE_SIZE <= usize::MAX,
        ensures
            r@ == BumpState::start(heap_base as int),
            r@.wf(),
    {
        let waste = heap_waste(heap_base);
        BumpAllocator { cursor: heap_base, free_space: PAGE_SIZE - waste }
    }

    /// Whether the address space leaves room to allocate `size` bytes
    /// aligned to `align`, with a page to spare for growth.
    pub fn can_allocate(&self, size: usize, align: usize) -> (r: bool)
        ensures
            r == (self@.cursor + align + size + PAGE_SIZE <= usize::MAX),
    {
        self.cursor <= usize::MAX - PAGE_SIZE && align <= usize::MAX - PAGE_SIZE - self.cursor
            && size <= usize::MAX - PAGE_SIZE - self.cursor - align
    }

    /// Hands out `size` bytes at the next address aligned to `align`. When
    /// the pages acquired so far cannot hold them, the result says how many
    /// more pages the host must map first, and they are counted as acquired.
    pub fn allocate(&mut self, size: usize, align: usize) -> (r: Allocation)
        requires
            align > 0,
            old(self)@.cursor + align + size + PAGE_SIZE <= usize::MAX,
        ensures
            r.address == old(self)@.address(size as int, align as int),
            r.grow_pages == old(self)@.grow_pages(size as int, align as int),
            final(self)@ == old(self)@.after(size as int, align as int),
            old(self)@.wf() ==> final(self)@.wf(),
    {
        let padding = (align - self.cursor % align) % align;
        let total = padding + size;
        let mut grow_pages: usize = 0;
        if total > self.free_space {
            let short = total - self.free_space;
            grow_pages = short / PAGE_SIZE + if short % PAGE_SIZE == 0 {
                0
            } else {
                1
            };
            assert(grow_pages == pages_for(short as int));
            assert(grow_pages * PAGE_SIZE < short + PAGE_SIZE);
            self.free_space = self.free_space + grow_pages * PAGE_SIZE;
        }
        let address = self.cursor + padding;
        self.cursor = self.cursor + total;
        self.free_space = self.free_space - total;
        Allocation { address, grow_pages }
    }
}

/// The process-wide allocator: it builds its bump allocator on first use
/// and hands out every permanent block from it.
pub struct Allocator {
    bump: Option<BumpAllocator>,
}

impl View for Allocator {
    type V = Option<BumpState>;

    closed spec fn view(&self) -> Option<BumpState> {
        match self.bump {
            Some(b) => Some(b@),
            None => None,
        }
    }
}

impl Allocator {
    /// The bump allocator state that the next allocation works on: the one
    /// built already, or a fresh one for a heap at `heap_base`.
    pub open spec fn current(v: Option<BumpState>, heap_base: int) -> BumpState {
        match v {
            Some(s) => s,
            None => BumpState::start(heap_base),
        }
    }

    /// A handle whose bump allocator is not built yet.
    pub fn new() -> (r: Self)
        ensures
            r@ == None::<BumpState>,
    {
        Allocator { bump: None }
    }

    /// The bump allocator, built for a heap at `heap_base` on first use.
    fn get_alloc(&mut self, heap_base: usize) -> (r: &mut BumpAllocator)
        requires
            heap_base + PAGE_SIZE <= usize::MAX,
        ensures
            r@ == Self::current(old(self)@, heap_base as int),
            final(self)@ == Some(final(r)@),
    {
        if self.bump.is_none() {
            self.bump = Some(BumpAllocator::new(heap_base));
        }
        self.bump.as_mut().unwrap()
    }

    /// Whether the address space leaves room for the next allocation of
    /// `size` bytes aligned to `align`, the heap starting at `heap_base`.
    pub fn can_allocate(&self, heap_base: usize, size: usize, align: usize) -> (r: bool)
        requires
            heap_base + PAGE_SIZE <= usize::MAX,
        ensures
            r == (Self::current(self@, heap_base as int).cursor + align + size + PAGE_SIZE
                <= usize::MAX),
    {
        match &self.bump {
            Some(b) => b.can_allocate(size, align),
            None => BumpAllocator::new(heap_base).can_allocate(size, align),
        }
    }

    /// Allocates `size` bytes aligned to `align` from the process-wide bump
    /// allocator, building it for a heap at `heap_base` on first use.
    pub fn allocate(&mut self, heap_base: usize, size: usize, align: usize) -> (r: Allocation)
        requires
            align > 0,
            heap_base + PAGE_SIZE <= usize::MAX,
            Self::current(old(self)@, heap_base as int).cursor + align + size + PAGE_SIZE
                <= usize::MAX,
        ensures
            ({
                let s = Self::current(old(self)@, heap_base as int);
                &&& r.address == s.address(size as int, align as int)
                &&& r.grow_pages == s.grow_pages(size as int, align as int)
                &&& final(self)@ == Some(s.after(size as int, align as int))
            }),
    {
        self.get_alloc(heap_base).allocate(size, align)
    }
}

} // verus!
