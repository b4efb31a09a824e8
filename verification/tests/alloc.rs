use tinykern::addr::PhysAddr;
use tinykern::mem::{buddy_alloc, buddy_free, find_order, init, next_power_of_two, Error};

const MIB: usize = 1024 * 1024;

#[test]
fn next_power_of_two_values() {
    assert_eq!(next_power_of_two(0), Some(1));
    assert_eq!(next_power_of_two(1), Some(1));
    assert_eq!(next_power_of_two(2), Some(2));
    assert_eq!(next_power_of_two(3), Some(4));
    assert_eq!(next_power_of_two(4), Some(4));
    assert_eq!(next_power_of_two(5), Some(8));
    assert_eq!(next_power_of_two(4095), Some(4096));
    assert_eq!(next_power_of_two(4096), Some(4096));
    assert_eq!(next_power_of_two(4097), Some(8192));
    assert_eq!(next_power_of_two(usize::MAX), None);
    assert_eq!(
        next_power_of_two(usize::MAX / 2 + 1),
        Some(usize::MAX / 2 + 1)
    );
    assert_eq!(next_power_of_two(usize::MAX / 2 + 2), None);
}

#[test]
fn rounding_twice_equals_rounding_once() {
    for n in [0usize, 1, 3, 5, 17, 1000, 4097, 13 * MIB] {
        let once = next_power_of_two(n).unwrap();
        let twice = next_power_of_two(once).unwrap();
        assert_eq!(once, twice);
    }
}

#[test]
fn find_order_values() {
    assert_eq!(find_order(0), 0);
    assert_eq!(find_order(1), 1);
    assert_eq!(find_order(2), 1);
    assert_eq!(find_order(3), 2);
    assert_eq!(find_order(6), 2);
    assert_eq!(find_order(7), 3);
    assert_eq!(find_order(4096), 12);
    assert_eq!(find_order(usize::MAX), usize::BITS as usize);
}

#[test]
fn alloc_rejects_zero_and_oversize() {
    let mut m = init(0x1000_0000, 0x1000_0000 + MIB, 0x2000_0000, 0x2010_0000);
    assert_eq!(buddy_alloc(&mut m, 0), Err(Error::ZeroSize));
    assert_eq!(buddy_alloc(&mut m, MIB + 1), Err(Error::OutOfMemory));
}

#[test]
fn alloc_returns_page_aligned_sized_blocks() {
    let mut m = init(0x1000_0000, 0x1000_0000 + MIB, 0x2000_0000, 0x2010_0000);
    let a = buddy_alloc(&mut m, 1).unwrap();
    assert_eq!(a.as_usize(), 0x1000_0000);
    assert_eq!(a.size(), Some(4096));
    assert!(a.is_aligned(4096));
    let b = buddy_alloc(&mut m, 5000).unwrap();
    assert_eq!(b.size(), Some(8192));
    assert!(b.is_aligned(4096));
    assert_ne!(a.as_usize(), b.as_usize());
}

#[test]
fn free_then_realloc_restores_the_arena() {
    let mut m = init(0x1000_0000, 0x1000_0000 + MIB, 0x2000_0000, 0x2010_0000);
    let a = buddy_alloc(&mut m, 5000).unwrap();
    let addr = a.as_usize();
    buddy_free(&mut m, a);
    let b = buddy_alloc(&mut m, 5000).unwrap();
    assert_eq!(b.as_usize(), addr);
    buddy_free(&mut m, b);
    // the whole region can be taken in one piece, so it is fully free
    let whole = buddy_alloc(&mut m, MIB).unwrap();
    assert_eq!(whole.as_usize(), 0x1000_0000);
}

#[test]
fn free_without_size_is_ignored() {
    let mut m = init(0x1000_0000, 0x1000_0000 + MIB, 0x2000_0000, 0x2010_0000);
    buddy_free(&mut m, PhysAddr::new(0x1000_0000, None));
    let whole = buddy_alloc(&mut m, MIB).unwrap();
    assert_eq!(whole.as_usize(), 0x1000_0000);
}

#[test]
fn exhaustion_and_reuse() {
    // a 16 KiB arena holds exactly four pages
    let mut m = init(0x1000_0000, 0x1000_4000, 0x2000_0000, 0x2000_4000);
    let mut blocks = Vec::new();
    for _ in 0..4 {
        let a = buddy_alloc(&mut m, 4096).unwrap();
        assert!(a.is_aligned(4096));
        blocks.push(a);
    }
    for i in 0..4 {
        for j in 0..i {
            assert_ne!(blocks[i].as_usize(), blocks[j].as_usize());
        }
    }
    assert_eq!(buddy_alloc(&mut m, 4096), Err(Error::OutOfMemory));
    let freed = blocks.pop().unwrap();
    let freed_addr = freed.as_usize();
    buddy_free(&mut m, freed);
    let again = buddy_alloc(&mut m, 4096).unwrap();
    assert_eq!(again.as_usize(), freed_addr);
}

#[test]
fn splitting_respects_larger_neighbors() {
    let mut m = init(0x1000_0000, 0x1000_0000 + MIB, 0x2000_0000, 0x2010_0000);
    let half = buddy_alloc(&mut m, MIB / 2).unwrap();
    let quarter = buddy_alloc(&mut m, MIB / 4).unwrap();
    // the quarter lands in the free half, past the allocated one
    assert_eq!(half.as_usize(), 0x1000_0000);
    assert_eq!(quarter.as_usize(), 0x1000_0000 + MIB / 2);
    // only a quarter is left now
    assert_eq!(buddy_alloc(&mut m, MIB / 2), Err(Error::OutOfMemory));
    let rest = buddy_alloc(&mut m, MIB / 4).unwrap();
    assert_eq!(rest.as_usize(), 0x1000_0000 + 3 * (MIB / 4));
}

#[test]
fn end_to_end_large_allocations() {
    // allocate 13, 12, 15 and 16 MiB from a 64 MiB arena: each request
    // rounds to 16 MiB, so the four fill the region exactly
    let mut m = init(
        0x1000_0000,
        0x1000_0000 + 64 * MIB,
        0x2000_0000,
        0x2010_0000,
    );
    let sizes = [13 * MIB, 12 * MIB, 15 * MIB, 16 * MIB];
    let mut blocks = Vec::new();
    for s in sizes {
        let a = buddy_alloc(&mut m, s).unwrap();
        assert!(a.is_aligned(4096));
        assert_eq!(a.size(), Some(16 * MIB));
        blocks.push(a);
    }
    for i in 0..blocks.len() {
        for j in 0..i {
            assert_ne!(blocks[i].as_usize(), blocks[j].as_usize());
        }
    }
    assert_eq!(buddy_alloc(&mut m, 1), Err(Error::OutOfMemory));
    // freeing in allocation order returns the arena to fully free
    for a in blocks {
        buddy_free(&mut m, a);
    }
    let whole = buddy_alloc(&mut m, 64 * MIB).unwrap();
    assert_eq!(whole.as_usize(), 0x1000_0000);
}
