use vstd::prelude::*;

verus! {

/// One occupancy word: bit `i` counted from the most significant end stands
/// for unit `i` of the page.
pub type BlockBitmap = u64;

/// The number of units one bitmap word tracks.
pub const BITMAP_BITS: usize = 64;

/// The size of a host page in bytes.
pub const PAGE_SIZE: usize = 65536;

/// The size of one allocation unit in bytes.
pub const BLOCK_SIZE: usize = 1024;

/// The number of units in one page.
pub const BLOCKS_LEN: usize = PAGE_SIZE / BLOCK_SIZE;

/// The mask of unit `i`'s bit: unit 0 is the most significant bit.
pub open spec fn unit_bit(i: u64) -> u64 {
    0x8000_0000_0000_0000u64 >> i
}

/// Whether unit `i` is marked as taken in `bits`.
pub open spec fn unit_used(bits: u64, i: int) -> bool {
    bits & unit_bit(i as u64) != 0
}

/// The `n` most significant bits set, the others clear (`1 <= n <= 64`).
pub open spec fn run_mask(n: u64) -> u64 {
    0xFFFF_FFFF_FFFF_FFFFu64 << ((64 - n) as u64)
}

/// The bits of units `[b, b + n)`.
pub open spec fn window_mask(b: int, n: int) -> u64 {
    run_mask(n as u64) >> (b as u64)
}

/// Whether units `[b, b + n)` are all clear in `bits`.
pub open spec fn window_free(bits: u64, b: int, n: int) -> bool {
    bits & window_mask(b, n) == 0
}

/// The number of clear units among the first `k` units of `bits`.
pub open spec fn free_count(bits: u64, k: int) -> nat
    decreases k,
{
    if k <= 0 {
        0
    } else {
        free_count(bits, k - 1) + if unit_used(bits, k - 1) {
            0nat
        } else {
            1nat
        }
    }
}

/// How many of the units `[b, b + n)` lie below `k`.
spec fn window_below(b: int, n: int, k: int) -> int {
    if k <= b {
        0
    } else if k >= b + n {
        n
    } else {
        k - b
    }
}

proof fn lemma_window_bit(b: u64, n: u64, i: u64)
    by (bit_vector)
    requires
        1 <= n <= 64,
        b + n <= 64,
        i < 64,
    ensures
        ((0xFFFF_FFFF_FFFF_FFFFu64 << ((64 - n) as u64)) >> b) & (0x8000_0000_0000_0000u64 >> i)
            != 0 <==> (b <= i && i < b + n),
{
}

/// Unit `i` lies in the window `[b, b + n)` exactly when its bit is in the
/// window's mask.
proof fn lemma_window_unit(b: int, n: int, i: int)
    requires
        1 <= n <= 64,
        0 <= b,
        b + n <= 64,
        0 <= i < 64,
    ensures
        unit_used(window_mask(b, n), i) <==> (b <= i < b + n),
{
    lemma_window_bit(b as u64, n as u64, i as u64);
}

proof fn lemma_or_bit(a: u64, m: u64, i: u64)
    by (bit_vector)
    requires
        i < 64,
    ensures
        ((a | m) & (0x8000_0000_0000_0000u64 >> i)) != 0 <==> ((a & (0x8000_0000_0000_0000u64
            >> i)) != 0 || (m & (0x8000_0000_0000_0000u64 >> i)) != 0),
{
}

proof fn lemma_and_not_bit(a: u64, m: u64, i: u64)
    by (bit_vector)
    requires
        i < 64,
    ensures
        ((a & !m) & (0x8000_0000_0000_0000u64 >> i)) != 0 <==> ((a & (0x8000_0000_0000_0000u64
            >> i)) != 0 && (m & (0x8000_0000_0000_0000u64 >> i)) == 0),
{
}

proof fn lemma_disjoint_bit(a: u64, m: u64, i: u64)
    by (bit_vector)
    requires
        i < 64,
        a & m == 0,
    ensures
        (m & (0x8000_0000_0000_0000u64 >> i)) != 0 ==> (a & (0x8000_0000_0000_0000u64 >> i))
            == 0,
{
}

proof fn lemma_set_then_clear(a: u64, m: u64)
    by (bit_vector)
    requires
        a & m == 0,
    ensures
        (a | m) & !m == a,
{
}

proof fn lemma_free_count_bound(bits: u64, k: int)
    requires
        0 <= k,
    ensures
        free_count(bits, k) <= k,
    decreases k,
{
    if k > 0 {
        lemma_free_count_bound(bits, k - 1);
    }
}

proof fn lemma_free_count_empty(k: int)
    requires
        0 <= k <= 64,
    ensures
        free_count(0, k) == k,
    decreases k,
{
    if k > 0 {
        lemma_free_count_empty(k - 1);
        assert(0u64 & (0x8000_0000_0000_0000u64 >> ((k - 1) as u64)) == 0) by (bit_vector);
    }
}

/// `x` has the window `[b, b + n)` all taken, `y` has it all clear, and the
/// two agree elsewhere: below `k`, `y` has as many more clear units as the
/// window has units below `k`.
proof fn lemma_free_count_window(x: u64, y: u64, b: int, n: int, k: int)
    requires
        0 <= b,
        1 <= n,
        b + n <= 64,
        0 <= k <= 64,
        forall|i: int|
            0 <= i < 64 ==> if b <= i < b + n {
                unit_used(x, i) && !unit_used(y, i)
            } else {
                unit_used(x, i) == unit_used(y, i)
            },
    ensures
        free_count(y, k) == free_count(x, k) + window_below(b, n, k),
    decreases k,
{
    if k > 0 {
        lemma_free_count_window(x, y, b, n, k - 1);
        assert(0 <= k - 1 < 64);
    }
}

/// The first window of `n` clear units at `b`, `b + n`, `b + 2n`, ... that
/// still fits in the word; `None` when there is none.
pub open spec fn scan_from(bits: u64, n: int, b: int) -> Option<int>
    decreases 64 - b,
{
    if n <= 0 || b < 0 || b + n > 64 {
        None
    } else if window_free(bits, b, n) {
        Some(b)
    } else {
        scan_from(bits, n, b + n)
    }
}

proof fn lemma_scan_found(bits: u64, n: int, b: int)
    requires
        scan_from(bits, n, b) is Some,
    ensures
        ({
            let f = scan_from(bits, n, b)->0;
            &&& b <= f
            &&& 1 <= n
            &&& f + n <= 64
            &&& window_free(bits, f, n)
        }),
    decreases 64 - b,
{
    if !(n <= 0 || b < 0 || b + n > 64) && !window_free(bits, b, n) {
        lemma_scan_found(bits, n, b + n);
    }
}

/// The number of units that the page header occupies at the start of the
/// page, rounded up to whole units.
pub open spec fn header_units() -> int {
    (vstd::layout::size_of::<PageBlock>() / (BLOCK_SIZE as nat) + 1) as int
}

/// The abstract state of a page: its occupancy bits, the length of the run
/// that starts at each unit (0 where none starts), and the free-unit count.
pub struct PageState {
    pub bits: u64,
    pub runs: Seq<nat>,
    pub free: nat,
}

impl PageState {
    /// A page with every unit free.
    pub open spec fn fresh() -> PageState {
        PageState { bits: 0, runs: Seq::new(64, |i: int| 0nat), free: 64 }
    }

    /// Every recorded run lies inside the page and fits a `u8`.
    pub open spec fn runs_in_page(self) -> bool {
        forall|i: int|
            0 <= i < 64 && #[trigger] self.runs[i] > 0 ==> i + self.runs[i] <= 64 && self.runs[i]
                <= 255
    }

    /// Every unit of a recorded run is marked as taken.
    pub open spec fn runs_marked(self) -> bool {
        forall|i: int, j: int|
            #![trigger self.runs[i], unit_used(self.bits, j)]
            0 <= i <= j < 64 && j < i + self.runs[i] ==> unit_used(self.bits, j)
    }

    /// No two recorded runs share a unit.
    pub open spec fn runs_disjoint(self) -> bool {
        forall|i1: int, i2: int|
            0 <= i1 < i2 < 64 && #[trigger] self.runs[i1] > 0 && #[trigger] self.runs[i2] > 0
                ==> i1 + self.runs[i1] <= i2
    }

    /// Every unit marked as taken belongs to a recorded run.
    pub open spec fn marks_owned(self) -> bool {
        forall|j: int|
            0 <= j < 64 && #[trigger] unit_used(self.bits, j) ==> exists|i: int|
                0 <= i <= j && j < i + #[trigger] self.runs[i]
    }

    /// The page is consistent: the marked units are exactly the units of the
    /// recorded runs, which do not overlap, and the free count is the number
    /// of clear units.
    pub open spec fn wf(self) -> bool {
        &&& self.runs.len() == 64
        &&& self.free == free_count(self.bits, 64)
        &&& self.runs_in_page()
        &&& self.runs_marked()
        &&& self.runs_disjoint()
        &&& self.marks_owned()
    }

    /// Where a run of `n` units would be placed: `None` when fewer than `n`
    /// units are free, else the first clear window of the scan that starts
    /// after the header and steps by `n`.
    pub open spec fn find_run(self, n: int) -> Option<int> {
        if n > self.free {
            None
        } else {
            scan_from(self.bits, n, header_units())
        }
    }

    /// The page after taking a run of `n` units, and where the run starts.
    pub open spec fn take(self, n: int) -> (PageState, Option<int>) {
        match self.find_run(n) {
            None => (self, None),
            Some(b) => (
                PageState {
                    bits: self.bits | window_mask(b, n),
                    runs: self.runs.update(b, n as nat),
                    free: (self.free - n) as nat,
                },
                Some(b),
            ),
        }
    }

    /// The page after freeing the run that starts at unit `b`.
    pub open spec fn release(self, b: int) -> PageState {
        let t = self.runs[b];
        PageState {
            bits: self.bits & !window_mask(b, t as int),
            runs: self.runs.update(b, 0),
            free: self.free + t,
        }
    }
}

proof fn lemma_fresh_wf()
    ensures
        PageState::fresh().wf(),
{
    let s = PageState::fresh();
    lemma_free_count_empty(64);
    assert forall|j: int| 0 <= j < 64 implies !unit_used(s.bits, j) by {
        let u = j as u64;
        assert(0u64 & (0x8000_0000_0000_0000u64 >> u) == 0) by (bit_vector);
    }
}

/// Taking a run keeps a page consistent; the run starts at a unit where no
/// run started and fits in the page.
pub proof fn lemma_take_wf(s: PageState, n: int)
    requires
        s.wf(),
        1 <= n <= 64,
    ensures
        s.take(n).0.wf(),
        s.take(n).1 matches Some(b) ==> 0 <= b && b + n <= 64 && s.runs[b] == 0,
{
    if let Some(b) = s.find_run(n) {
        lemma_scan_found(s.bits, n, header_units());
        let m = window_mask(b, n);
        let t = s.take(n).0;
        assert forall|i: int| 0 <= i < 64 implies (unit_used(t.bits, i) <==> (unit_used(s.bits, i)
            || b <= i < b + n)) && (b <= i < b + n ==> !unit_used(s.bits, i)) by {
            lemma_or_bit(s.bits, m, i as u64);
            lemma_window_unit(b, n, i);
            lemma_disjoint_bit(s.bits, m, i as u64);
        }
        assert(s.runs[b] == 0) by {
            if s.runs[b] > 0 {
                assert(unit_used(s.bits, b));
            }
        }
        lemma_free_count_window(t.bits, s.bits, b, n, 64);
        assert(t.runs_marked()) by {
            assert forall|i: int, j: int|
                0 <= i <= j < 64 && j < i + t.runs[i] implies unit_used(t.bits, j) by {
                if i != b {
                    assert(unit_used(s.bits, j));
                }
            }
        }
        assert(t.runs_disjoint()) by {
            assert forall|i1: int, i2: int|
                0 <= i1 < i2 < 64 && #[trigger] t.runs[i1] > 0 && #[trigger] t.runs[i2] > 0
                implies i1 + t.runs[i1] <= i2 by {
                if i1 == b {
                    assert(unit_used(s.bits, i2));
                } else if i2 == b {
                    if i1 + s.runs[i1] > b {
                        assert(unit_used(s.bits, b));
                    }
                }
            }
        }
        assert(t.marks_owned()) by {
            assert forall|j: int| 0 <= j < 64 && #[trigger] unit_used(t.bits, j) implies exists|
                i: int,
            | 0 <= i <= j && j < i + #[trigger] t.runs[i] by {
                if b <= j < b + n {
                    assert(0 <= b <= j && j < b + t.runs[b]);
                } else {
                    let i = choose|i: int| 0 <= i <= j && j < i + #[trigger] s.runs[i];
                    assert(i != b);
                    assert(0 <= i <= j && j < i + t.runs[i]);
                }
            }
        }
    }
}

/// Freeing a recorded run keeps a page consistent.
pub proof fn lemma_release_wf(s: PageState, b: int)
    requires
        s.wf(),
        0 <= b < 64,
        s.runs[b] > 0,
    ensures
        s.release(b).wf(),
{
    let n = s.runs[b] as int;
    let m = window_mask(b, n);
    let t = s.release(b);
    assert forall|i: int| 0 <= i < 64 implies (unit_used(t.bits, i) <==> (unit_used(s.bits, i)
        && !(b <= i < b + n))) && (b <= i < b + n ==> unit_used(s.bits, i)) by {
        lemma_and_not_bit(s.bits, m, i as u64);
        lemma_window_unit(b, n, i);
    }
    lemma_free_count_window(s.bits, t.bits, b, n, 64);
    assert(t.runs_marked()) by {
        assert forall|i: int, j: int|
            0 <= i <= j < 64 && j < i + t.runs[i] implies unit_used(t.bits, j) by {
            assert(unit_used(s.bits, j));
            if i < b {
                assert(i + s.runs[i] <= b);
            } else {
                assert(b + s.runs[b] <= i);
            }
        }
    }
    assert(t.marks_owned()) by {
        assert forall|j: int| 0 <= j < 64 && #[trigger] unit_used(t.bits, j) implies exists|i: int|
            0 <= i <= j && j < i + #[trigger] t.runs[i] by {
            let i = choose|i: int| 0 <= i <= j && j < i + #[trigger] s.runs[i];
            assert(i != b);
            assert(0 <= i <= j && j < i + t.runs[i]);
        }
    }
}

/// Taking a run of `n` units and freeing it again gives back the page as it
/// was; so taking `n` units once more returns the same first unit.
pub proof fn lemma_take_free_take(s: PageState, n: int)
    requires
        s.wf(),
        1 <= n <= 64,
    ensures
        s.take(n).1 matches Some(b) ==> {
            &&& s.take(n).0.release(b) == s
            &&& s.take(n).0.release(b).take(n) == s.take(n)
        },
{
    lemma_take_wf(s, n);
    if let Some(b) = s.take(n).1 {
        lemma_scan_found(s.bits, n, header_units());
        let t = s.take(n).0;
        lemma_set_then_clear(s.bits, window_mask(b, n));
        assert(t.release(b).runs =~= s.runs);
    }
}

/// The occupancy of one page of units: a bitmap word, the length of the run
/// that starts at each unit, and the number of free units.
pub struct PageBlock {
    blocks: BlockBitmap,
    taken_blocks: [u8; BITMAP_BITS],
    available_blocks: usize,
}

impl View for PageBlock {
    type V = PageState;

    closed spec fn view(&self) -> PageState {
        PageState {
            bits: self.blocks,
            runs: self.taken_blocks@.map_values(|x: u8| x as nat),
            free: self.available_blocks as nat,
        }
    }
}

impl PageBlock {
    /// A page with every unit free.
    pub fn new() -> (r: Self)
        ensures
            r@ == PageState::fresh(),
            r@.wf(),
    {
        let r = PageBlock { blocks: 0, available_blocks: BLOCKS_LEN, taken_blocks: [0; BITMAP_BITS] };
        proof {
            assert(r@.runs =~= PageState::fresh().runs);
            lemma_fresh_wf();
        }
        r
    }

    /// The first unit after the page header, which occupies the start of
    /// the page.
    fn block_offset() -> (r: usize)
        ensures
            r == header_units(),
    {
        core::mem::size_of::<PageBlock>() / BLOCK_SIZE + 1
    }

    /// A scanning bitmap of `blocks` units, starting from the left: for 4
    /// units, `11110000_00000000_..._00000000`.
    fn make_block_bitmap(blocks: usize) -> (r: BlockBitmap)
        requires
            1 <= blocks <= BITMAP_BITS,
        ensures
            r == run_mask(blocks as u64),
    {
        0xFFFF_FFFF_FFFF_FFFFu64 << ((BITMAP_BITS - blocks) as u64)
    }

    /// Finds where a run of `blocks` units can go: the first window of clear
    /// units at the header offset and then in steps of `blocks`, or `None`.
    pub fn get_blocks(&self, blocks: usize) -> (r: Option<usize>)
        requires
            1 <= blocks <= BITMAP_BITS,
        ensures
            r is None <==> self@.find_run(blocks as int) is None,
            r matches Some(b) ==> self@.find_run(blocks as int) == Some(b as int),
    {
        if blocks > self.available_blocks {
            return None;
        }
        let scan_bitmap: BlockBitmap = Self::make_block_bitmap(blocks);
        let offset = Self::block_offset();
        let max_index = BITMAP_BITS - blocks;
        let mut bind = offset;
        while bind <= max_index
            invariant
                1 <= blocks <= BITMAP_BITS,
                max_index == BITMAP_BITS - blocks,
                scan_bitmap == run_mask(blocks as u64),
                blocks <= self.available_blocks,
                scan_from(self.blocks, blocks as int, offset as int) == scan_from(
                    self.blocks,
                    blocks as int,
                    bind as int,
                ),
                self@.find_run(blocks as int) == scan_from(self.blocks, blocks as int, offset as int),
            decreases 64 - bind,
        {
            let bitmap = scan_bitmap >> bind;
            let bits = self.blocks;
            assert((!bits & bitmap == bitmap) == (bits & bitmap == 0)) by (bit_vector);
            if (!self.blocks & bitmap) == bitmap {
                return Some(bind);
            }
            bind = bind + blocks;
        }
        None
    }

    /// Takes a run of `blocks` units where `get_blocks` places it, records
    /// its length at its first unit, and returns that unit; `None` when no
    /// window fits.
    pub fn take_blocks(&mut self, blocks: usize) -> (r: Option<usize>)
        requires
            old(self)@.wf(),
            1 <= blocks <= BITMAP_BITS,
        ensures
            final(self)@ == old(self)@.take(blocks as int).0,
            r is None <==> old(self)@.take(blocks as int).1 is None,
            r matches Some(b) ==> old(self)@.take(blocks as int).1 == Some(b as int),
            final(self)@.wf(),
    {
        proof {
            lemma_take_wf(self@, blocks as int);
        }
        let bind = match self.get_blocks(blocks) {
            Some(b) => b,
            None => return None,
        };
        self.taken_blocks[bind] = blocks as u8;
        let taken_bitmap = Self::make_block_bitmap(blocks) >> bind;
        self.blocks = self.blocks | taken_bitmap;
        self.available_blocks = self.available_blocks - blocks;
        proof {
            assert(self@.runs =~= old(self)@.take(blocks as int).0.runs);
        }
        Some(bind)
    }

    /// Frees the run that starts at unit `bind`: clears its units, forgets
    /// its length and counts its units as free again.
    pub fn free_blocks(&mut self, bind: usize)
        requires
            old(self)@.wf(),
            bind < BITMAP_BITS,
            old(self)@.runs[bind as int] > 0,
        ensures
            final(self)@ == old(self)@.release(bind as int),
            final(self)@.wf(),
    {
        proof {
            lemma_release_wf(self@, bind as int);
            lemma_free_count_bound(self.blocks, 64);
        }
        let taken_blocks = self.taken_blocks[bind] as usize;
        self.taken_blocks[bind] = 0;
        let taken_bitmap = Self::make_block_bitmap(taken_blocks) >> bind;
        self.blocks = self.blocks & !taken_bitmap;
        proof {
            assert(self@.runs =~= old(self)@.release(bind as int).runs);
            lemma_free_count_bound(self.blocks, 64);
        }
        self.available_blocks = self.available_blocks + taken_blocks;
    }
}

} // verus!
