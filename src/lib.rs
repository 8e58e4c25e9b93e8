//! Memory management for a single-threaded host that only offers a linearly
//! growable memory: a fixed-capacity vector, a free-list block pool, a bitmap
//! page allocator, a page-growing bump allocator, and the cells that hold the
//! program's single instances.
mod block;
mod bump;
mod cell;
mod constvec;
mod lifecycle;
mod page;
mod pool;

pub use block::BlockDescriptor;
pub use bump::{
    Allocation, Allocator, BumpAllocator, BumpState, heap_waste, initial_pages,
    lemma_bump_monotonic, lemma_page_growth, padding, pages_for, run_allocs,
};
pub use cell::{AutoCell, InitCell};
pub use constvec::{
    ConstVec, VecOp, apply_op, lemma_elements_accounted, lemma_full_push_refused, pushed, run_ops,
    swap_removed,
};
pub use lifecycle::{AppCell, AppHandler};
pub use page::{
    BITMAP_BITS, BLOCKS_LEN, BLOCK_SIZE, BlockBitmap, PAGE_SIZE, PageBlock, PageState, free_count,
    header_units, lemma_release_wf, lemma_take_free_take, lemma_take_wf, run_mask, scan_from,
    unit_bit, unit_used, window_free, window_mask,
};
pub use pool::{
    FreeBlockPool, PoolOp, acquired, first_fit, fit_from, joined, left_neighbor_from,
    lemma_pool_conservation, merge_left, merge_right, released, right_neighbor_from, pool_step,
    run_pool, total_length, well_placed,
};
