use vstd::prelude::*;
use crate::block::BlockDescriptor;
use crate::constvec::{ConstVec, swap_removed};

verus! {

/// The sum of the lengths of the descriptors in `s`.
pub open spec fn total_length(s: Seq<BlockDescriptor>) -> int
    decreases s.len(),
{
    if s.len() == 0 {
        0
    } else {
        total_length(s.drop_last()) + s.last().length
    }
}

/// The descriptors lie in `[lo, hi)`, are non-empty, and do not overlap.
pub open spec fn well_placed(s: Seq<BlockDescriptor>, lo: int, hi: int) -> bool {
    &&& hi <= usize::MAX
    &&& forall|i: int|
        0 <= i < s.len() ==> #[trigger] s[i].length > 0 && lo <= s[i].start && s[i].end() <= hi
    &&& forall|i: int, j: int|
        0 <= i < s.len() && 0 <= j < s.len() && i != j ==> !(#[trigger] s[i]).overlaps(
            #[trigger] s[j],
        )
}

/// The first index at or after `i` whose descriptor can hold `n` units.
pub open spec fn fit_from(s: Seq<BlockDescriptor>, n: int, i: int) -> Option<int>
    decreases s.len() - i,
{
    if i < 0 || i >= s.len() {
        None
    } else if s[i].length >= n {
        Some(i)
    } else {
        fit_from(s, n, i + 1)
    }
}

/// First fit: the first index whose descriptor can hold `n` units.
pub open spec fn first_fit(s: Seq<BlockDescriptor>, n: int) -> Option<int> {
    fit_from(s, n, 0)
}

/// The free descriptors after acquiring `n` units, and the run acquired: a
/// descriptor of exactly `n` units is taken whole and swap-removed, a larger
/// one gives up its right end and keeps its start.
pub open spec fn acquired(s: Seq<BlockDescriptor>, n: int) -> (Seq<BlockDescriptor>, Option<
    BlockDescriptor,
>) {
    match first_fit(s, n) {
        None => (s, None),
        Some(i) => if s[i].length == n {
            (swap_removed(s, i), Some(s[i]))
        } else {
            (
                s.update(i, BlockDescriptor { start: s[i].start, length: (s[i].length - n) as usize }),
                Some(BlockDescriptor { start: (s[i].end() - n) as usize, length: n as usize }),
            )
        },
    }
}

/// The first index at or after `i`, other than `skip`, whose descriptor
/// starts where `b` ends.
pub open spec fn right_neighbor_from(s: Seq<BlockDescriptor>, b: BlockDescriptor, skip: int, i: int) -> Option<int>
    decreases s.len() - i,
{
    if i < 0 || i >= s.len() {
        None
    } else if i != skip && b.adjacent_to(s[i]) {
        Some(i)
    } else {
        right_neighbor_from(s, b, skip, i + 1)
    }
}

/// The first index at or after `i`, other than `skip`, whose descriptor
/// ends where `b` starts.
pub open spec fn left_neighbor_from(s: Seq<BlockDescriptor>, b: BlockDescriptor, skip: int, i: int) -> Option<int>
    decreases s.len() - i,
{
    if i < 0 || i >= s.len() {
        None
    } else if i != skip && s[i].adjacent_to(b) {
        Some(i)
    } else {
        left_neighbor_from(s, b, skip, i + 1)
    }
}

/// `a` followed by `b`, which starts where `a` ends, as one descriptor.
pub open spec fn joined(a: BlockDescriptor, b: BlockDescriptor) -> BlockDescriptor {
    BlockDescriptor { start: a.start, length: (a.length + b.length) as usize }
}

/// The descriptors after the first coalescing pass over `s`, where the
/// freed block `s[k]` absorbs the first other descriptor that starts where
/// it ends, and the index the freed block stands at afterwards.
pub open spec fn merge_right(s: Seq<BlockDescriptor>, k: int) -> (Seq<BlockDescriptor>, int) {
    match right_neighbor_from(s, s[k], k, 0) {
        Some(j) => (swap_removed(s.update(k, joined(s[k], s[j])), j), if k == s.len() - 1 {
            j
        } else {
            k
        }),
        None => (s, k),
    }
}

/// The descriptors after the second coalescing pass: the first other
/// descriptor that ends where `s[k]` starts absorbs it.
pub open spec fn merge_left(s: Seq<BlockDescriptor>, k: int) -> Seq<BlockDescriptor> {
    match left_neighbor_from(s, s[k], k, 0) {
        Some(j) => swap_removed(s.update(j, joined(s[j], s[k])), k),
        None => s,
    }
}

/// The free descriptors after releasing `b` into a pool with room for `cap`
/// descriptors: `b` is appended, then merged with a free neighbour on its
/// right, then with one on its left. `None` when the pool has no room.
pub open spec fn released(s: Seq<BlockDescriptor>, cap: nat, b: BlockDescriptor) -> Option<
    Seq<BlockDescriptor>,
> {
    if s.len() >= cap {
        None
    } else {
        let (s2, k2) = merge_right(s.push(b), s.len() as int);
        Some(merge_left(s2, k2))
    }
}

proof fn lemma_fit_found(s: Seq<BlockDescriptor>, n: int, i: int)
    requires
        fit_from(s, n, i) is Some,
    ensures
        ({
            let f = fit_from(s, n, i)->0;
            i <= f < s.len() && s[f].length >= n
        }),
    decreases s.len() - i,
{
    if !(i < 0 || i >= s.len()) && s[i].length < n {
        lemma_fit_found(s, n, i + 1);
    }
}

proof fn lemma_right_found(s: Seq<BlockDescriptor>, b: BlockDescriptor, skip: int, i: int)
    requires
        right_neighbor_from(s, b, skip, i) is Some,
    ensures
        ({
            let f = right_neighbor_from(s, b, skip, i)->0;
            0 <= i <= f < s.len() && f != skip && b.adjacent_to(s[f])
        }),
    decreases s.len() - i,
{
    if !(i < 0 || i >= s.len()) && !(i != skip && b.adjacent_to(s[i])) {
        lemma_right_found(s, b, skip, i + 1);
    }
}

proof fn lemma_left_found(s: Seq<BlockDescriptor>, b: BlockDescriptor, skip: int, i: int)
    requires
        left_neighbor_from(s, b, skip, i) is Some,
    ensures
        ({
            let f = left_neighbor_from(s, b, skip, i)->0;
            0 <= i <= f < s.len() && f != skip && s[f].adjacent_to(b)
        }),
    decreases s.len() - i,
{
    if !(i < 0 || i >= s.len()) && !(i != skip && s[i].adjacent_to(b)) {
        lemma_left_found(s, b, skip, i + 1);
    }
}

/// What stands at index `p` after swap-removing index `i`.
proof fn lemma_swap_removed_index<T>(s: Seq<T>, i: int, p: int)
    requires
        0 <= i < s.len(),
        0 <= p < s.len() - 1,
    ensures
        swap_removed(s, i)[p] == if p == i {
            s[s.len() - 1]
        } else {
            s[p]
        },
        swap_removed(s, i).len() == s.len() - 1,
{
}

proof fn lemma_swap_removed_placed(s: Seq<BlockDescriptor>, lo: int, hi: int, i: int)
    requires
        well_placed(s, lo, hi),
        0 <= i < s.len(),
    ensures
        well_placed(swap_removed(s, i), lo, hi),
{
    let u = swap_removed(s, i);
    let last = s.len() - 1;
    assert forall|p: int| 0 <= p < u.len() implies #[trigger] u[p].length > 0 && lo <= u[p].start
        && u[p].end() <= hi by {
        lemma_swap_removed_index(s, i, p);
    }
    assert forall|p: int, q: int| 0 <= p < u.len() && 0 <= q < u.len() && p != q implies !(
    #[trigger] u[p]).overlaps(#[trigger] u[q]) by {
        lemma_swap_removed_index(s, i, p);
        lemma_swap_removed_index(s, i, q);
        let pp = if p == i {
            last
        } else {
            p
        };
        let qq = if q == i {
            last
        } else {
            q
        };
        assert(u[p] == s[pp] && u[q] == s[qq] && pp != qq);
    }
}

/// Joining `s[a]` with the descriptor `s[b]` that starts where it ends,
/// storing the union at `a` and swap-removing `b`, keeps the descriptors
/// well placed.
proof fn lemma_join_placed(s: Seq<BlockDescriptor>, lo: int, hi: int, a: int, b: int)
    requires
        well_placed(s, lo, hi),
        0 <= a < s.len(),
        0 <= b < s.len(),
        a != b,
        s[a].adjacent_to(s[b]),
    ensures
        well_placed(swap_removed(s.update(a, joined(s[a], s[b])), b), lo, hi),
        joined(s[a], s[b]).end() == s[b].end(),
{
    let j = joined(s[a], s[b]);
    let t = s.update(a, j);
    let u = swap_removed(t, b);
    let last = s.len() - 1;
    assert(j.length == s[a].length + s[b].length);
    assert forall|p: int| 0 <= p < u.len() implies #[trigger] u[p].length > 0 && lo <= u[p].start
        && u[p].end() <= hi by {
        lemma_swap_removed_index(t, b, p);
    }
    assert forall|p: int, q: int| 0 <= p < u.len() && 0 <= q < u.len() && p != q implies !(
    #[trigger] u[p]).overlaps(#[trigger] u[q]) by {
        lemma_swap_removed_index(t, b, p);
        lemma_swap_removed_index(t, b, q);
        let pp = if p == b {
            last
        } else {
            p
        };
        let qq = if q == b {
            last
        } else {
            q
        };
        assert(u[p] == t[pp] && u[q] == t[qq] && pp != qq && pp != b && qq != b);
        if pp == a {
            assert(!s[qq].overlaps(s[a]) && !s[qq].overlaps(s[b]));
        } else if qq == a {
            assert(!s[pp].overlaps(s[a]) && !s[pp].overlaps(s[b]));
        } else {
            assert(!s[pp].overlaps(s[qq]));
        }
    }
}

proof fn lemma_total_update(s: Seq<BlockDescriptor>, i: int, x: BlockDescriptor)
    requires
        0 <= i < s.len(),
    ensures
        total_length(s.update(i, x)) == total_length(s) - s[i].length + x.length,
    decreases s.len(),
{
    let u = s.update(i, x);
    if i == s.len() - 1 {
        assert(u.drop_last() =~= s.drop_last());
    } else {
        assert(u.drop_last() =~= s.drop_last().update(i, x));
        lemma_total_update(s.drop_last(), i, x);
    }
}

proof fn lemma_total_swap_removed(s: Seq<BlockDescriptor>, i: int)
    requires
        0 <= i < s.len(),
    ensures
        total_length(swap_removed(s, i)) == total_length(s) - s[i].length,
{
    lemma_total_update(s, i, s.last());
}

proof fn lemma_total_single(s: Seq<BlockDescriptor>, a: int)
    requires
        0 <= a < s.len(),
    ensures
        s[a].length <= total_length(s),
        0 <= total_length(s),
    decreases s.len(),
{
    if a == s.len() - 1 {
        if s.len() > 1 {
            lemma_total_single(s.drop_last(), 0);
        }
    } else {
        lemma_total_single(s.drop_last(), a);
    }
}

proof fn lemma_total_pair(s: Seq<BlockDescriptor>, a: int, b: int)
    requires
        0 <= a < s.len(),
        0 <= b < s.len(),
        a != b,
    ensures
        s[a].length + s[b].length <= total_length(s),
    decreases s.len(),
{
    let last = s.len() - 1;
    if a == last {
        lemma_total_single(s.drop_last(), b);
    } else if b == last {
        lemma_total_single(s.drop_last(), a);
    } else {
        lemma_total_pair(s.drop_last(), a, b);
    }
}

/// Joining a descriptor with another at a different index and swap-removing
/// the other keeps the total length, when the two lengths fit a `usize`.
proof fn lemma_total_join(s: Seq<BlockDescriptor>, a: int, b: int)
    requires
        0 <= a < s.len(),
        0 <= b < s.len(),
        a != b,
        total_length(s) <= usize::MAX,
    ensures
        total_length(swap_removed(s.update(a, joined(s[a], s[b])), b)) == total_length(s),
{
    lemma_total_pair(s, a, b);
    lemma_total_update(s, a, joined(s[a], s[b]));
    lemma_total_swap_removed(s.update(a, joined(s[a], s[b])), b);
}

/// One call on a pool, as a value: acquire `n` units, or release the
/// outstanding run with the given index in the caller's list.
pub enum PoolOp {
    Acquire(usize),
    Release(usize),
}

/// The free descriptors and the caller's outstanding runs after one call on
/// a pool with room for `cap` descriptors. An acquired run joins the
/// outstanding ones; a released run leaves them unless the pool was full.
pub open spec fn pool_step(s: Seq<BlockDescriptor>, cap: nat, held: Seq<BlockDescriptor>, op: PoolOp) -> (Seq<BlockDescriptor>, Seq<BlockDescriptor>) {
    match op {
        PoolOp::Acquire(n) => {
            let (t, r) = acquired(s, n as int);
            match r {
                Some(b) => (t, held.push(b)),
                None => (t, held),
            }
        },
        PoolOp::Release(i) => if i < held.len() {
            match released(s, cap, held[i as int]) {
                Some(t) => (t, swap_removed(held, i as int)),
                None => (s, held),
            }
        } else {
            (s, held)
        },
    }
}

/// The free descriptors and outstanding runs after a series of calls.
pub open spec fn run_pool(s: Seq<BlockDescriptor>, cap: nat, held: Seq<BlockDescriptor>, ops: Seq<PoolOp>) -> (Seq<BlockDescriptor>, Seq<BlockDescriptor>)
    decreases ops.len(),
{
    if ops.len() == 0 {
        (s, held)
    } else {
        let (s1, h1) = run_pool(s, cap, held, ops.drop_last());
        pool_step(s1, cap, h1, ops.last())
    }
}

proof fn lemma_step_conserves(s: Seq<BlockDescriptor>, cap: nat, held: Seq<BlockDescriptor>, op: PoolOp)
    requires
        total_length(s) + total_length(held) <= usize::MAX,
    ensures
        ({
            let (t, h) = pool_step(s, cap, held, op);
            total_length(t) + total_length(h) == total_length(s) + total_length(held)
        }),
{
    if s.len() > 0 {
        lemma_total_single(s, 0);
    }
    if held.len() > 0 {
        lemma_total_single(held, 0);
    }
    match op {
        PoolOp::Acquire(n) => {
            if let Some(i) = first_fit(s, n as int) {
                lemma_fit_found(s, n as int, 0);
                let b = acquired(s, n as int).1->0;
                assert(held.push(b).drop_last() =~= held);
                if s[i].length == n {
                    lemma_total_swap_removed(s, i);
                } else {
                    lemma_total_update(
                        s,
                        i,
                        BlockDescriptor { start: s[i].start, length: (s[i].length - n) as usize },
                    );
                }
            }
        },
        PoolOp::Release(i) => {
            if i < held.len() && s.len() < cap {
                let b = held[i as int];
                lemma_total_single(held, i as int);
                lemma_total_swap_removed(held, i as int);
                let s1 = s.push(b);
                let k = s.len() as int;
                assert(s1.drop_last() =~= s);
                assert(total_length(s1) == total_length(s) + b.length);
                let (s2, k2) = merge_right(s1, k);
                if let Some(j) = right_neighbor_from(s1, s1[k], k, 0) {
                    lemma_right_found(s1, s1[k], k, 0);
                    lemma_total_join(s1, k, j);
                }
                assert(total_length(s2) == total_length(s1));
                assert(0 <= k2 < s2.len());
                if let Some(j) = left_neighbor_from(s2, s2[k2], k2, 0) {
                    lemma_left_found(s2, s2[k2], k2, 0);
                    lemma_total_join(s2, j, k2);
                }
            }
        },
    }
}

/// Over any series of acquire and release calls, the free length left in
/// the pool plus the length of the runs the caller holds stays the same: a
/// pool over `S` units with nothing acquired keeps `S` units accounted for.
pub proof fn lemma_pool_conservation(
    s: Seq<BlockDescriptor>,
    cap: nat,
    held: Seq<BlockDescriptor>,
    ops: Seq<PoolOp>,
)
    requires
        total_length(s) + total_length(held) <= usize::MAX,
    ensures
        ({
            let (t, h) = run_pool(s, cap, held, ops);
            total_length(t) + total_length(h) == total_length(s) + total_length(held)
        }),
    decreases ops.len(),
{
    if ops.len() > 0 {
        lemma_pool_conservation(s, cap, held, ops.drop_last());
        let (s1, h1) = run_pool(s, cap, held, ops.drop_last());
        lemma_step_conserves(s1, cap, h1, ops.last());
    }
}

/// The free capacity of one range of units, as a bounded list of
/// non-overlapping free descriptors. It starts as one descriptor over the
/// whole range.
pub struct FreeBlockPool<const S: usize> {
    base: usize,
    size: usize,
    blocks: ConstVec<BlockDescriptor, S>,
}

impl<const S: usize> View for FreeBlockPool<S> {
    type V = Seq<BlockDescriptor>;

    closed spec fn view(&self) -> Seq<BlockDescriptor> {
        self.blocks@
    }
}

impl<const S: usize> FreeBlockPool<S> {
    /// The first unit of the range.
    pub closed spec fn lo(&self) -> int {
        self.base as int
    }

    /// One past the last unit of the range.
    pub closed spec fn hi(&self) -> int {
        self.base + self.size
    }

    /// The free descriptors lie in the range, are non-empty and disjoint.
    pub open spec fn wf(&self) -> bool {
        well_placed(self@, self.lo(), self.hi())
    }

    /// A pool whose whole range `[base, base + size)` is free.
    pub fn new(base: usize, size: usize) -> (r: Self)
        requires
            S > 0,
            size > 0,
            base + size <= usize::MAX,
        ensures
            r@ == seq![BlockDescriptor { start: base, length: size }],
            r.lo() == base,
            r.hi() == base + size,
            r.wf(),
    {
        let mut blocks: ConstVec<BlockDescriptor, S> = ConstVec::new();
        blocks.push(BlockDescriptor { start: base, length: size });
        proof {
            assert(blocks@ =~= seq![BlockDescriptor { start: base, length: size }]);
        }
        FreeBlockPool { base, size, blocks }
    }

    /// The number of free descriptors.
    pub fn len(&self) -> (r: usize)
        ensures
            r == self@.len(),
    {
        self.blocks.len()
    }

    /// The free descriptor at `index`.
    pub fn block(&self, index: usize) -> (r: BlockDescriptor)
        requires
            index < self@.len(),
        ensures
            r == self@[index as int],
    {
        *self.blocks.get(index).unwrap()
    }

    /// Takes `n` units from the first free descriptor that can hold them:
    /// the whole descriptor when it has exactly `n` units, else its right
    /// end. `None` when no free descriptor is large enough.
    pub fn acquire(&mut self, n: usize) -> (r: Option<BlockDescriptor>)
        requires
            old(self).wf(),
            n > 0,
        ensures
            (final(self)@, r) == acquired(old(self)@, n as int),
            final(self).lo() == old(self).lo(),
            final(self).hi() == old(self).hi(),
            final(self).wf(),
    {
        let i = match self.find_fit(n) {
            Some(i) => i,
            None => return None,
        };
        proof {
            lemma_fit_found(self@, n as int, 0);
        }
        let mut b = self.block(i);
        if b.is_exact(n) {
            proof {
                lemma_swap_removed_placed(self@, self.lo(), self.hi(), i as int);
            }
            self.blocks.swap_pop(i)
        } else {
            let piece = b.take_partially(n);
            self.blocks.set(i, b);
            proof {
                let t = self@;
                assert forall|p: int, q: int|
                    0 <= p < t.len() && 0 <= q < t.len() && p != q implies !(
                #[trigger] t[p]).overlaps(#[trigger] t[q]) by {
                    assert(!old(self)@[p].overlaps(old(self)@[q]));
                }
                assert forall|p: int| 0 <= p < t.len() implies #[trigger] t[p].length > 0
                    && self.lo() <= t[p].start && t[p].end() <= self.hi() by {
                    assert(old(self)@[p].length > 0);
                }
            }
            Some(piece)
        }
    }

    /// The index of the first descriptor other than `k` that starts where
    /// descriptor `k` ends.
    fn find_right_neighbor(&self, k: usize) -> (r: Option<usize>)
        requires
            self.wf(),
            k < self@.len(),
        ensures
            r is None <==> right_neighbor_from(self@, self@[k as int], k as int, 0) is None,
            r matches Some(j) ==> right_neighbor_from(self@, self@[k as int], k as int, 0) == Some(
                j as int,
            ),
    {
        let cur = self.block(k);
        let len = self.blocks.len();
        let mut j: usize = 0;
        while j < len
            invariant
                self.wf(),
                len == self@.len(),
                j <= len,
                k < len,
                cur == self@[k as int],
                right_neighbor_from(self@, cur, k as int, 0) == right_neighbor_from(
                    self@,
                    cur,
                    k as int,
                    j as int,
                ),
            decreases len - j,
        {
            if j != k {
                let other = self.block(j);
                if cur.can_join_right(&other) {
                    return Some(j);
                }
            }
            j = j + 1;
        }
        None
    }

    /// The index of the first descriptor other than `k` that ends where
    /// descriptor `k` starts.
    fn find_left_neighbor(&self, k: usize) -> (r: Option<usize>)
        requires
            self.wf(),
            k < self@.len(),
        ensures
            r is None <==> left_neighbor_from(self@, self@[k as int], k as int, 0) is None,
            r matches Some(j) ==> left_neighbor_from(self@, self@[k as int], k as int, 0) == Some(
                j as int,
            ),
    {
        let cur = self.block(k);
        let len = self.blocks.len();
        let mut j: usize = 0;
        while j < len
            invariant
                self.wf(),
                len == self@.len(),
                j <= len,
                k < len,
                cur == self@[k as int],
                left_neighbor_from(self@, cur, k as int, 0) == left_neighbor_from(
                    self@,
                    cur,
                    k as int,
                    j as int,
                ),
            decreases len - j,
        {
            if j != k {
                let other = self.block(j);
                if other.can_join_right(&cur) {
                    return Some(j);
                }
            }
            j = j + 1;
        }
        None
    }

    /// Returns the free block `block` to the pool and coalesces it: first it
    /// absorbs a free descriptor that starts where it ends, then a free
    /// descriptor that ends where it starts absorbs it. When the pool has no
    /// room for another descriptor, `block` is handed back in `Err` and the
    /// pool is unchanged.
    pub fn release(&mut self, block: BlockDescriptor) -> (r: Result<(), BlockDescriptor>)
        requires
            old(self).wf(),
            block.length > 0,
            old(self).lo() <= block.start,
            block.end() <= old(self).hi(),
            forall|i: int| 0 <= i < old(self)@.len() ==> !block.overlaps(#[trigger] old(self)@[i]),
        ensures
            match released(old(self)@, S as nat, block) {
                None => r == Err::<(), BlockDescriptor>(block) && final(self)@ == old(self)@,
                Some(t) => r is Ok && final(self)@ == t,
            },
            final(self).lo() == old(self).lo(),
            final(self).hi() == old(self).hi(),
            final(self).wf(),
    {
        if self.blocks.is_full() {
            return Err(block);
        }
        self.blocks.push(block);
        let ghost pushed_view = self@;
        proof {
            assert(pushed_view == old(self)@.push(block));
            assert forall|p: int, q: int|
                0 <= p < pushed_view.len() && 0 <= q < pushed_view.len() && p != q implies !(
            #[trigger] pushed_view[p]).overlaps(#[trigger] pushed_view[q]) by {
                if p < old(self)@.len() && q < old(self)@.len() {
                    assert(!old(self)@[p].overlaps(old(self)@[q]));
                } else if p < old(self)@.len() {
                    assert(!block.overlaps(old(self)@[p]));
                } else {
                    assert(!block.overlaps(old(self)@[q]));
                }
            }
            assert(self.wf());
        }
        let mut k = self.blocks.len() - 1;
        match self.find_right_neighbor(k) {
            Some(j) => {
                proof {
                    lemma_right_found(self@, self@[k as int], k as int, 0);
                    lemma_join_placed(self@, self.lo(), self.hi(), k as int, j as int);
                }
                let other = self.block(j);
                let mut merged = self.block(k);
                merged.join_right(other);
                self.blocks.set(k, merged);
                self.blocks.swap_pop(j);
                k = j;
            },
            None => {},
        }
        let ghost right_view = self@;
        proof {
            assert((right_view, k as int) == merge_right(pushed_view, old(self)@.len() as int));
        }
        match self.find_left_neighbor(k) {
            Some(j) => {
                proof {
                    lemma_left_found(self@, self@[k as int], k as int, 0);
                    lemma_join_placed(self@, self.lo(), self.hi(), j as int, k as int);
                }
                let freed = self.block(k);
                let mut merged = self.block(j);
                merged.join_right(freed);
                self.blocks.set(j, merged);
                self.blocks.swap_pop(k);
            },
            None => {},
        }
        Ok(())
    }

    /// The index of the first free descriptor that can hold `n` units.
    pub fn find_fit(&self, n: usize) -> (r: Option<usize>)
        ensures
            r is None <==> first_fit(self@, n as int) is None,
            r matches Some(i) ==> first_fit(self@, n as int) == Some(i as int),
    {
        let len = self.blocks.len();
        let mut i: usize = 0;
        while i < len
            invariant
                len == self@.len(),
                i <= len,
                first_fit(self@, n as int) == fit_from(self@, n as int, i as int),
            decreases len - i,
        {
            let b = *self.blocks.get(i).unwrap();
            if b.can_accommodate(n) {
                return Some(i);
            }
            i = i + 1;
        }
        None
    }
}

} // verus!
