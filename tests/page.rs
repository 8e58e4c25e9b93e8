use pagealloc::{BITMAP_BITS, BLOCKS_LEN, PageBlock};

#[test]
fn test_page_blocks() {
    let mut page = PageBlock::new();

    // Allocate 2 blocks
    let addr = page.take_blocks(2).unwrap();

    // Free those blocks
    page.free_blocks(addr);

    // Allocate again (must allocate THE SAME BLOCKS)
    let addr2 = page.take_blocks(2).unwrap();

    // Check the equality
    assert_eq!(addr, addr2);

    let addr3 = page.take_blocks(3).unwrap();

    // The offset between these allocations must be 2

    assert!(addr3 > addr2);

    // Deallocate again our first 2 blocks
    page.free_blocks(addr2);

    // Allocate a bigger block
    let addr4 = page.take_blocks(4).unwrap();

    assert_ne!(addr3, addr2);
    assert_ne!(addr4, addr3);
    assert!(addr4 > addr3);
}

#[test]
fn page_has_one_word_of_units() {
    assert_eq!(BLOCKS_LEN, 64);
    assert_eq!(BITMAP_BITS, 64);
}

#[test]
fn first_run_starts_after_header() {
    let mut page = PageBlock::new();
    assert_eq!(page.get_blocks(1), Some(1));
    assert_eq!(page.take_blocks(1), Some(1));
    assert_eq!(page.take_blocks(1), Some(2));
    assert_eq!(page.take_blocks(3), Some(4));
}

#[test]
fn scan_steps_by_request_size() {
    let mut page = PageBlock::new();
    // Units 1 and 2.
    assert_eq!(page.take_blocks(2), Some(1));
    // Candidates for 3 units are 1, 4, 7, ...: 1 collides, 4 is free.
    assert_eq!(page.take_blocks(3), Some(4));
    // Candidates for 2 units are 1, 3, 5, 7: units 3 and 4 only half fit,
    // and unit 3 stays unused.
    assert_eq!(page.get_blocks(2), Some(7));
    // Candidates for 4 units: 1, 5, 9: 1 and 5 collide.
    assert_eq!(page.get_blocks(4), Some(9));
}

#[test]
fn reuse_gives_the_same_unit() {
    for n in 1..=8 {
        let mut page = PageBlock::new();
        page.take_blocks(5).unwrap();
        let a = page.take_blocks(n).unwrap();
        page.free_blocks(a);
        assert_eq!(page.take_blocks(n), Some(a));
    }
}

#[test]
fn runs_do_not_collide() {
    let mut page = PageBlock::new();
    let first = page.take_blocks(2).unwrap();
    let second = page.take_blocks(3).unwrap();
    assert!(second >= first + 2);
    page.free_blocks(first);
    let third = page.take_blocks(4).unwrap();
    assert!(third + 4 <= second || third >= second + 3);
    assert_ne!(third, first);
    assert_ne!(third, second);
}

#[test]
fn request_larger_than_the_word_has_no_fit() {
    let mut page = PageBlock::new();
    assert_eq!(page.get_blocks(64), None);
    assert_eq!(page.take_blocks(64), None);
    // The last window that fits ends at unit 63.
    assert_eq!(page.take_blocks(63), Some(1));
    assert_eq!(page.take_blocks(1), None);
}

#[test]
fn full_page_has_no_fit() {
    let mut page = PageBlock::new();
    for i in 1..64 {
        assert_eq!(page.take_blocks(1), Some(i));
    }
    // Only the header unit is left, and it is never handed out.
    assert_eq!(page.get_blocks(1), None);
    page.free_blocks(10);
    assert_eq!(page.take_blocks(1), Some(10));
}

#[test]
fn more_than_the_free_count_fails_fast() {
    let mut page = PageBlock::new();
    assert_eq!(page.take_blocks(32), Some(1));
    // 32 units are free, but no candidate window (1, 33) fits.
    assert_eq!(page.take_blocks(32), None);
    assert_eq!(page.take_blocks(16), Some(33));
    // Only 16 units are free.
    assert_eq!(page.take_blocks(17), None);
    page.free_blocks(1);
    assert_eq!(page.take_blocks(17), Some(1));
}
