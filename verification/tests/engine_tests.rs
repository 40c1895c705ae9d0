use shmalloc::engine::{Block, BlockState, HeapEngine};

#[test]
fn new_engine_starts_empty() {
    let h = HeapEngine::new(1024);
    assert_eq!(h.used(), 0);
    assert_eq!(h.free(), 1024);
    assert_eq!(h.blocks.len(), 1);
    assert_eq!(h.blocks[0], Block { off: 0, len: 1024, state: BlockState::Free });
}

#[test]
fn conservation_holds_at_every_step() {
    let mut h = HeapEngine::new(4096);
    assert_eq!(h.used() + h.free(), 4096);
    let a = h.allocate(100, 1).unwrap();
    assert_eq!(h.used() + h.free(), 4096);
    let b = h.allocate(333, 1).unwrap();
    assert_eq!(h.used() + h.free(), 4096);
    h.deallocate(a, 100);
    assert_eq!(h.used() + h.free(), 4096);
    let c = h.allocate(64, 8).unwrap();
    assert_eq!(h.used() + h.free(), 4096);
    h.deallocate(b, 333);
    h.deallocate(c, 64);
    assert_eq!(h.used() + h.free(), 4096);
}

#[test]
fn round_trip_restores_free() {
    let mut h = HeapEngine::new(2048);
    let before = h.free();
    let at = h.allocate(257, 1).unwrap();
    assert_eq!(h.free(), before - 257);
    h.deallocate(at, 257);
    assert_eq!(h.free(), before);
    assert_eq!(h.used(), 0);
}

#[test]
fn release_in_any_order_coalesces_to_one_block() {
    let mut h = HeapEngine::new(1000);
    let a = h.allocate(100, 1).unwrap();
    let b = h.allocate(200, 1).unwrap();
    let c = h.allocate(300, 1).unwrap();
    let d = h.allocate(150, 1).unwrap();
    // Release out of address order.
    h.deallocate(c, 300);
    h.deallocate(a, 100);
    h.deallocate(d, 150);
    h.deallocate(b, 200);
    assert_eq!(h.used(), 0);
    assert_eq!(h.free(), 1000);
    assert_eq!(h.blocks.len(), 1);
    assert_eq!(h.blocks[0], Block { off: 0, len: 1000, state: BlockState::Free });
}

#[test]
fn fragmented_free_space_cannot_serve_one_large_request() {
    let mut h = HeapEngine::new(300);
    let a = h.allocate(100, 1).unwrap();
    let _b = h.allocate(100, 1).unwrap();
    let c = h.allocate(100, 1).unwrap();
    h.deallocate(a, 100);
    h.deallocate(c, 100);
    // 200 bytes are free, but split into two 100-byte holes.
    assert_eq!(h.free(), 200);
    let used_before = h.used();
    assert_eq!(h.allocate(150, 1), None);
    assert_eq!(h.used(), used_before);
    assert_eq!(h.free(), 200);
}

#[test]
fn oversize_request_is_refused_unchanged() {
    let mut h = HeapEngine::new(1024);
    assert_eq!(h.allocate(1025, 1), None);
    assert_eq!(h.used(), 0);
    assert_eq!(h.free(), 1024);
    assert_eq!(h.blocks.len(), 1);
}

#[test]
fn scenario_small_heap() {
    let mut h = HeapEngine::new(1024);
    let at = h.allocate(100, 1).unwrap();
    assert_eq!(h.used(), 100);
    assert_eq!(h.allocate(2000, 1), None);
    assert_eq!(h.used(), 100);
    h.deallocate(at, 100);
    assert_eq!(h.free(), 1024);
    assert_eq!(h.used(), 0);
}

#[test]
fn adjacent_blocks_merge_on_release() {
    let mut h = HeapEngine::new(128);
    let a = h.allocate(64, 1).unwrap();
    let b = h.allocate(64, 1).unwrap();
    assert_eq!(a, 0);
    assert_eq!(b, 64);
    h.deallocate(a, 64);
    h.deallocate(b, 64);
    // A 120-byte request fits only if the two 64-byte halves merged.
    let big = h.allocate(120, 1);
    assert_eq!(big, Some(0));
    assert_eq!(h.used(), 120);
}

#[test]
fn first_fit_prefers_the_earliest_hole() {
    let mut h = HeapEngine::new(1024);
    let a = h.allocate(64, 1).unwrap();
    let _b = h.allocate(64, 1).unwrap();
    h.deallocate(a, 64);
    // The hole at offset 0 comes first in address order and is split.
    let c = h.allocate(32, 1).unwrap();
    assert_eq!(c, 0);
    // The remainder of the hole stays free: another 32 bytes still fit there.
    let d = h.allocate(32, 1).unwrap();
    assert_eq!(d, 32);
}

#[test]
fn alignment_padding_stays_free() {
    let mut h = HeapEngine::new(256);
    let a = h.allocate(10, 1).unwrap();
    assert_eq!(a, 0);
    // The free block starts at 10; the aligned start is 16.
    let b = h.allocate(16, 16).unwrap();
    assert_eq!(b, 16);
    // Only the 16 requested bytes count as used; the 6 padding bytes do not.
    assert_eq!(h.used(), 26);
    assert_eq!(h.free(), 230);
    // The padding hole at offset 10 can still serve a small request.
    let c = h.allocate(6, 1).unwrap();
    assert_eq!(c, 10);
}

#[test]
fn interleaved_cycles_restore_the_initial_state() {
    let mut h = HeapEngine::new(8192);
    for round in 0..50 {
        let s1 = 16 + (round % 7) * 24;
        let s2 = 128 + (round % 3) * 64;
        let a = h.allocate(s1, 8).unwrap();
        let b = h.allocate(s2, 16).unwrap();
        h.deallocate(a, s1);
        let c = h.allocate(s1 * 2, 4).unwrap();
        h.deallocate(b, s2);
        h.deallocate(c, s1 * 2);
        assert_eq!(h.used() + h.free(), 8192);
    }
    assert_eq!(h.used(), 0);
    assert_eq!(h.free(), 8192);
    assert_eq!(h.blocks.len(), 1);
}

#[test]
fn exhaustion_boundary_is_exact() {
    let mut h = HeapEngine::new(512);
    let a = h.allocate(512, 1);
    assert_eq!(a, Some(0));
    assert_eq!(h.free(), 0);
    assert_eq!(h.allocate(1, 1), None);
    h.deallocate(0, 512);
    assert_eq!(h.allocate(513, 1), None);
    assert_eq!(h.allocate(512, 1), Some(0));
}
