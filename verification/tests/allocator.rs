//! Runs the allocator on concrete heaps: the documented scenarios, the
//! edge cases, and one witness for each proved law.

use alloc_cortex_m::block::check_power_of_two;
use alloc_cortex_m::AllocError;
use alloc_cortex_m::Block;
use alloc_cortex_m::CortexMHeap;
use alloc_cortex_m::FreeListHeap;

#[test]
fn empty_heap_is_uninitialized() {
    let h = FreeListHeap::empty();
    assert!(!h.initialized());
    assert_eq!(h.block_count(), 0);
    assert_eq!(h.free_byte_count(), 0);
    let g = CortexMHeap::empty();
    assert!(!g.initialized());
}

#[test]
fn init_makes_one_block_spanning_the_region() {
    let mut h = FreeListHeap::empty();
    h.init(0x1000, 1024);
    assert!(h.initialized());
    assert_eq!(h.block_count(), 1);
    assert_eq!(h.block_at(0), Block { addr: 0x1000, size: 1024 });
    assert_eq!(h.free_byte_count(), 1024);
}

#[test]
fn guarded_init_takes_end_address() {
    let mut h = CortexMHeap::empty();
    h.init(0x1000, 0x1400);
    assert!(h.initialized());
    assert_eq!(h.block_count(), 1);
    assert_eq!(h.block_at(0), Block { addr: 0x1000, size: 1024 });
    assert_eq!(h.free_byte_count(), 1024);
}

#[test]
fn scenario_two_allocations_then_coalescing_frees() {
    // region of 1024 bytes at 0x1000
    let mut h = CortexMHeap::empty();
    h.init(0x1000, 0x1400);

    // 100 bytes, align 4: first fit at the region start
    assert_eq!(h.allocate(100, 4), Ok(0x1000));
    assert_eq!(h.free_byte_count(), 924);

    // 200 more bytes: the next free address
    assert_eq!(h.allocate(200, 4), Ok(0x1064));
    assert_eq!(h.free_byte_count(), 724);

    // freeing the first block brings back a block at 0x1000; it cannot
    // merge with the still-live 200-byte allocation
    h.deallocate(0x1000, 100, 4);
    assert_eq!(h.block_count(), 2);
    assert_eq!(h.block_at(0), Block { addr: 0x1000, size: 100 });
    assert_eq!(h.block_at(1), Block { addr: 0x112c, size: 724 });

    // freeing the second block merges with both neighbours at once
    h.deallocate(0x1064, 200, 4);
    assert_eq!(h.block_count(), 1);
    assert_eq!(h.block_at(0), Block { addr: 0x1000, size: 1024 });
    assert_eq!(h.free_byte_count(), 1024);
}

#[test]
fn scenario_allocate_until_out_of_memory_then_recover() {
    let mut h = CortexMHeap::empty();
    h.init(0x1000, 0x1400);

    let mut granted: Vec<usize> = Vec::new();
    let mut total: usize = 0;
    loop {
        match h.allocate(100, 1) {
            Ok(p) => {
                granted.push(p);
                total += 100;
            }
            Err(e) => {
                assert_eq!(e, AllocError::OutOfMemory);
                break;
            }
        }
    }
    // the granted bytes never exceed the region
    assert!(total <= 1024);
    assert_eq!(granted.len(), 10);

    // after freeing everything, one request for the full region succeeds
    for p in &granted {
        h.deallocate(*p, 100, 1);
    }
    assert_eq!(h.block_count(), 1);
    assert_eq!(h.free_byte_count(), 1024);
    assert_eq!(h.allocate(1024, 1), Ok(0x1000));
    assert_eq!(h.free_byte_count(), 0);
}

#[test]
fn round_trip_restores_the_exact_layout() {
    let mut h = CortexMHeap::empty();
    h.init(0x1000, 0x1400);
    assert_eq!(h.allocate(300, 2), Ok(0x1000));

    // the state before: one live block, one free block
    let count_before = h.block_count();
    let first_before = h.block_at(0);
    let free_before = h.free_byte_count();

    let p = h.allocate(128, 8).unwrap();
    h.deallocate(p, 128, 8);

    assert_eq!(h.block_count(), count_before);
    assert_eq!(h.block_at(0), first_before);
    assert_eq!(h.free_byte_count(), free_before);
}

#[test]
fn coalescing_is_order_independent() {
    // two heaps with the same three allocations
    let mut h1 = CortexMHeap::empty();
    h1.init(0x1000, 0x1400);
    let a1 = h1.allocate(64, 1).unwrap();
    let b1 = h1.allocate(64, 1).unwrap();
    let _c1 = h1.allocate(64, 1).unwrap();

    let mut h2 = CortexMHeap::empty();
    h2.init(0x1000, 0x1400);
    let a2 = h2.allocate(64, 1).unwrap();
    let b2 = h2.allocate(64, 1).unwrap();
    let _c2 = h2.allocate(64, 1).unwrap();

    assert_eq!(a1, a2);
    assert_eq!(b1, b2);

    // free the two adjacent blocks in opposite orders
    h1.deallocate(a1, 64, 1);
    h1.deallocate(b1, 64, 1);
    h2.deallocate(b2, 64, 1);
    h2.deallocate(a2, 64, 1);

    // either order yields one merged block spanning both regions
    assert_eq!(h1.block_count(), h2.block_count());
    for i in 0..h1.block_count() {
        assert_eq!(h1.block_at(i), h2.block_at(i));
    }
    assert_eq!(h1.block_at(0), Block { addr: 0x1000, size: 128 });
}

#[test]
fn first_fit_chooses_the_lowest_address() {
    let mut h = CortexMHeap::empty();
    h.init(0x1000, 0x1400);
    let a = h.allocate(100, 1).unwrap();
    let _b = h.allocate(100, 1).unwrap();
    let c = h.allocate(100, 1).unwrap();

    // two holes: one at the region start, one past the live middle block
    h.deallocate(a, 100, 1);
    h.deallocate(c, 100, 1);
    assert_eq!(h.block_count(), 2);

    // both holes fit the request; the lower address wins
    assert_eq!(h.allocate(50, 1), Ok(0x1000));

    // run again on an identical state: the same block is chosen
    let mut g = CortexMHeap::empty();
    g.init(0x1000, 0x1400);
    let ga = g.allocate(100, 1).unwrap();
    let _gb = g.allocate(100, 1).unwrap();
    let gc = g.allocate(100, 1).unwrap();
    g.deallocate(ga, 100, 1);
    g.deallocate(gc, 100, 1);
    assert_eq!(g.allocate(50, 1), Ok(0x1000));
}

#[test]
fn oversized_request_fails_and_leaves_the_heap_usable() {
    let mut h = CortexMHeap::empty();
    h.init(0x1000, 0x1400);
    let before = h.free_byte_count();

    assert_eq!(h.allocate(2000, 1), Err(AllocError::OutOfMemory));

    // the failure changed nothing: a request that fits still succeeds
    assert_eq!(h.free_byte_count(), before);
    assert_eq!(h.block_count(), 1);
    assert_eq!(h.allocate(512, 1), Ok(0x1000));
}

#[test]
fn zero_size_request_returns_an_aligned_sentinel() {
    let mut h = CortexMHeap::empty();
    h.init(0x1000, 0x1400);
    let before = h.free_byte_count();

    assert_eq!(h.allocate(0, 8), Ok(8));
    assert_eq!(h.free_byte_count(), before);
    assert_eq!(h.block_count(), 1);

    // releasing a zero-size grant is a no-op
    h.deallocate(8, 0, 8);
    assert_eq!(h.free_byte_count(), before);
    assert_eq!(h.block_count(), 1);
}

#[test]
fn alignment_padding_stays_in_the_free_list() {
    // a region whose start is not 16-aligned
    let mut h = CortexMHeap::empty();
    h.init(0x1001, 0x1400);
    assert_eq!(h.free_byte_count(), 1023);

    // the payload lands on the next 16-aligned address; the skipped
    // bytes stay free as a block of their own, so nothing leaks
    assert_eq!(h.allocate(8, 16), Ok(0x1010));
    assert_eq!(h.block_count(), 2);
    assert_eq!(h.block_at(0), Block { addr: 0x1001, size: 15 });
    assert_eq!(h.block_at(1), Block { addr: 0x1018, size: 1000 });
    assert_eq!(h.free_byte_count(), 1015);
}

#[test]
fn can_free_decides_the_deallocation_contract() {
    let mut h = CortexMHeap::empty();
    h.init(0x1000, 0x1400);
    let p = h.allocate(100, 4).unwrap();

    // a matching grant may be freed
    assert!(h.can_free(p, 100, 4));
    // zero-size releases are always in contract
    assert!(h.can_free(8, 0, 8));
    // alignment must be a power of two, and the address must carry it
    assert!(!h.can_free(p, 100, 3));
    assert!(!h.can_free(p + 2, 100, 4));
    // the region must lie inside the heap
    assert!(!h.can_free(0x2000, 100, 4));
    // a region that is already free cannot be freed again
    assert!(!h.can_free(0x1100, 100, 4));
}

#[test]
fn power_of_two_check() {
    assert!(check_power_of_two(1));
    assert!(check_power_of_two(2));
    assert!(check_power_of_two(4));
    assert!(check_power_of_two(1024));
    assert!(!check_power_of_two(0));
    assert!(!check_power_of_two(3));
    assert!(!check_power_of_two(6));
    assert!(!check_power_of_two(usize::MAX));
}
