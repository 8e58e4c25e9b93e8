use pagealloc::{Allocation, Allocator, BumpAllocator, PAGE_SIZE, heap_waste, initial_pages};

#[test]
fn initial_pages_round_up() {
    assert_eq!(initial_pages(0), 0);
    assert_eq!(initial_pages(1), 1);
    assert_eq!(initial_pages(65536), 1);
    assert_eq!(initial_pages(65537), 2);
    assert_eq!(initial_pages(70000), 2);
}

#[test]
fn heap_waste_is_the_used_part_of_the_last_page() {
    assert_eq!(heap_waste(70000), 4464);
    assert_eq!(heap_waste(65537), 1);
    // A page-aligned heap base leaves nothing in the last initial page.
    assert_eq!(heap_waste(65536), PAGE_SIZE);
}

#[test]
fn allocation_within_the_first_page() {
    let mut bump = BumpAllocator::new(70000);
    assert_eq!(bump.allocate(100, 8), Allocation { address: 70000, grow_pages: 0 });
    // 70100 rounded up to 16 is 70112.
    assert_eq!(bump.allocate(4, 16), Allocation { address: 70112, grow_pages: 0 });
    assert_eq!(bump.allocate(1, 1), Allocation { address: 70116, grow_pages: 0 });
}

#[test]
fn growth_covers_only_the_shortfall() {
    // 61072 bytes are left in the second page.
    let mut bump = BumpAllocator::new(70000);
    assert_eq!(bump.allocate(61072, 1), Allocation { address: 70000, grow_pages: 0 });
    assert_eq!(bump.allocate(1, 1), Allocation { address: 131072, grow_pages: 1 });
    // 65535 bytes are left now.
    assert_eq!(bump.allocate(65535, 1), Allocation { address: 131073, grow_pages: 0 });
}

#[test]
fn growth_requests_k_plus_one_pages() {
    // A page-aligned heap base: nothing is left, R = 0.
    for k in 0..4usize {
        for r in [1usize, 100, PAGE_SIZE - 1] {
            let mut bump = BumpAllocator::new(65536);
            let a = bump.allocate(k * PAGE_SIZE + r, 1);
            assert_eq!(a.address, 65536);
            assert_eq!(a.grow_pages, k + 1);
        }
    }
    // With R = 100 left and a request of R + 2 pages + 1 byte.
    let mut bump = BumpAllocator::new(65436);
    let a = bump.allocate(100 + 2 * PAGE_SIZE + 1, 1);
    assert_eq!(a.grow_pages, 3);
}

#[test]
fn exact_fit_requests_no_pages() {
    let mut bump = BumpAllocator::new(65436);
    assert_eq!(bump.allocate(100, 1), Allocation { address: 65436, grow_pages: 0 });
    assert_eq!(bump.allocate(PAGE_SIZE, 1), Allocation { address: 65536, grow_pages: 1 });
    assert_eq!(bump.allocate(0, 1), Allocation { address: 131072, grow_pages: 0 });
}

#[test]
fn addresses_increase_and_never_overlap() {
    let mut bump = BumpAllocator::new(70000);
    let reqs: [(usize, usize); 6] = [(10, 4), (70000, 8), (3, 1), (200000, 64), (1, 2), (5, 4096)];
    let mut prev_end = 0usize;
    let mut prev_addr = 0usize;
    for (size, align) in reqs {
        let a = bump.allocate(size, align);
        assert!(a.address >= prev_end);
        assert!(a.address > prev_addr);
        assert_eq!(a.address % align, 0);
        prev_end = a.address + size;
        prev_addr = a.address;
    }
}

#[test]
fn handle_builds_its_allocator_once() {
    let mut handle = Allocator::new();
    let first = handle.allocate(70000, 10, 1);
    assert_eq!(first, Allocation { address: 70000, grow_pages: 0 });
    // The heap base only matters on first use.
    let second = handle.allocate(500000, 10, 1);
    assert_eq!(second, Allocation { address: 70010, grow_pages: 0 });
}
