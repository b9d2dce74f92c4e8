use std::collections::HashSet;

use scoped_arena::AllocErr;
use scoped_arena::CannotReallocInPlace;
use scoped_arena::Layout;
use scoped_arena::OwnedArena;
use scoped_arena::OwnedArenaBlock;
use scoped_arena::INITIAL_BLOCK_CAPACITY;
use scoped_arena::MAX_OBJECT_SIZE;

fn layout(size: usize, align: usize) -> Layout {
    Layout::from_size_align(size, align).expect("alignment must be a power of two")
}

#[test]
fn test_alloc() {
    let mut arena = OwnedArena::new().unwrap();
    let mut addresses = HashSet::<usize>::new();
    for i in 0..1000 {
        let ptr = arena.allocate(layout(i, 1)).unwrap();
        for k in 0..i {
            assert!(addresses.insert(ptr.addr + k));
            arena.write_byte(ptr, k, 1);
            assert_eq!(arena.read_byte(ptr, k), 1);
        }
    }
}

#[test]
fn test_alignment() {
    let mut arena = OwnedArena::new().unwrap();
    for &align in &[1usize, 2, 4, 8, 16, 64, 256] {
        let p = arena.allocate(layout(5, align)).unwrap();
        assert_eq!(p.addr % align, 0);
    }
}

#[test]
fn test_unsupported_oversized_request() {
    let mut arena = OwnedArena::new().unwrap();
    let before_blocks = arena.num_blocks();
    let before_len = arena.block_len(before_blocks - 1);
    let r = arena.allocate(layout(MAX_OBJECT_SIZE + 1, 1));
    assert_eq!(r, Err(AllocErr::Unsupported));
    assert_eq!(arena.num_blocks(), before_blocks);
    assert_eq!(arena.block_len(before_blocks - 1), before_len);
}

#[test]
fn test_fill_block_then_spill() {
    // A fresh arena has one block of capacity 4096: 4096 one-byte
    // allocations all land there; the next one forces a second block of
    // capacity at least 8192.
    let mut arena = OwnedArena::new().unwrap();
    assert_eq!(arena.num_blocks(), 1);
    assert_eq!(arena.block_capacity(0), INITIAL_BLOCK_CAPACITY);
    for _ in 0..INITIAL_BLOCK_CAPACITY {
        arena.allocate(layout(1, 1)).unwrap();
        assert_eq!(arena.num_blocks(), 1);
    }
    assert_eq!(arena.block_len(0), INITIAL_BLOCK_CAPACITY);
    let p = arena.allocate(layout(1, 1)).unwrap();
    assert_eq!(arena.num_blocks(), 2);
    assert_eq!(p.block_index, 1);
    assert!(arena.block_capacity(1) >= 2 * INITIAL_BLOCK_CAPACITY);
}

#[test]
fn test_back_to_back_allocations() {
    let c = 1024usize;
    let mut arena = OwnedArena::new().unwrap();
    let p1 = arena.allocate(layout(c, 1)).unwrap();
    let p2 = arena.allocate(layout(2 * c, 1)).unwrap();
    // Same block, disjoint and nondecreasing addresses.
    assert_eq!(p1.block_index, p2.block_index);
    assert!(p1.addr + c <= p2.addr);
    // The next request exceeds the remaining capacity: a fresh block is
    // created, at least twice the previous capacity and at least
    // size + align.
    let p3 = arena.allocate(layout(4096, 8)).unwrap();
    assert_eq!(arena.num_blocks(), 2);
    assert_eq!(p3.block_index, 1);
    assert!(arena.block_capacity(1) >= 2 * INITIAL_BLOCK_CAPACITY);
    assert!(arena.block_capacity(1) >= 4096 + 8);
    assert!(p2.addr + 2 * c <= p3.addr);
}

#[test]
fn test_shrink_then_grow_in_place() {
    // A 16-byte, 8-aligned head allocation shrinks in place to 8 bytes
    // without moving, and grows back to 16 because it is still the head.
    let mut arena = OwnedArena::new().unwrap();
    let p = arena.allocate(layout(16, 8)).unwrap();
    let len_after_alloc = arena.block_len(p.block_index);
    assert_eq!(arena.shrink_in_place(p, layout(16, 8), layout(8, 8)), Ok(()));
    assert_eq!(arena.block_len(p.block_index), len_after_alloc - 8);
    assert_eq!(arena.grow_in_place(p, layout(8, 8), layout(16, 8)), Ok(()));
    assert_eq!(arena.block_len(p.block_index), len_after_alloc);
}

#[test]
fn test_resize_in_place_refused_for_non_head() {
    let mut arena = OwnedArena::new().unwrap();
    let p = arena.allocate(layout(16, 8)).unwrap();
    let _q = arena.allocate(layout(16, 8)).unwrap();
    // p is no longer the head allocation: both resizes are refused.
    assert_eq!(
        arena.grow_in_place(p, layout(16, 8), layout(32, 8)),
        Err(CannotReallocInPlace)
    );
    assert_eq!(
        arena.shrink_in_place(p, layout(16, 8), layout(8, 8)),
        Err(CannotReallocInPlace)
    );
}

#[test]
fn test_resize_in_place_refused_for_misaligned() {
    let mut arena = OwnedArena::new().unwrap();
    let _pad = arena.allocate(layout(1, 1)).unwrap();
    // The head allocation sits at address 1: growing it under an 8-byte
    // alignment is refused even though it is the head.
    let p = arena.allocate(layout(4, 1)).unwrap();
    assert_eq!(p.addr % 8, 1);
    assert_eq!(
        arena.grow_in_place(p, layout(4, 1), layout(8, 8)),
        Err(CannotReallocInPlace)
    );
}

#[test]
fn test_scoped_roundtrip() {
    let mut arena = OwnedArena::new().unwrap();
    let blocks_before = arena.num_blocks();
    let len_before = arena.block_len(blocks_before - 1);
    let chk = arena.scope_checkpoint();

    let p = arena.allocate(layout(64, 8)).unwrap();
    for j in 0..64 {
        arena.write_byte(p, j, (j as u8).wrapping_mul(3));
    }
    for j in 0..64 {
        assert_eq!(arena.read_byte(p, j), (j as u8).wrapping_mul(3));
    }

    arena.scope_restore(chk);
    assert_eq!(arena.num_blocks(), blocks_before);
    assert_eq!(arena.block_len(blocks_before - 1), len_before);

    // The freed space is reused: the next allocation lands at the same
    // address.
    let q = arena.allocate(layout(64, 8)).unwrap();
    assert_eq!(q.addr, p.addr);
}

#[test]
fn test_scoped_repeated_no_leak() {
    let mut arena = OwnedArena::new().unwrap();
    let mut settled_capacity = 0usize;
    for pass in 0..50 {
        let chk = arena.scope_checkpoint();
        // More than the initial block holds: the first pass forces a
        // fresh block, which the restore keeps as a spare; every later
        // pass fits the spare.
        arena.allocate(layout(5000, 8)).unwrap();
        arena.scope_restore(chk);
        assert!(arena.num_blocks() <= 2);
        let total: usize = (0..arena.num_blocks()).map(|i| arena.block_capacity(i)).sum();
        if pass == 0 {
            settled_capacity = total;
        } else {
            assert_eq!(total, settled_capacity);
        }
    }
}

#[test]
fn test_scoped_repeated_small_callbacks_single_block() {
    let mut arena = OwnedArena::new().unwrap();
    for _ in 0..50 {
        let chk = arena.scope_checkpoint();
        arena.allocate(layout(1000, 8)).unwrap();
        arena.scope_restore(chk);
        assert_eq!(arena.num_blocks(), 1);
        assert_eq!(arena.block_capacity(0), INITIAL_BLOCK_CAPACITY);
        assert_eq!(arena.block_len(0), 0);
    }
}

#[test]
fn test_scope_restore_keeps_largest_block() {
    let mut arena = OwnedArena::new().unwrap();
    let chk = arena.scope_checkpoint();
    // Force two fresh blocks inside the scope.
    arena.allocate(layout(5000, 1)).unwrap();
    arena.allocate(layout(11000, 1)).unwrap();
    assert_eq!(arena.num_blocks(), 3);
    let largest = arena.block_capacity(2);
    arena.scope_restore(chk);
    // The original block survives, plus the largest new block as an empty
    // spare.
    assert_eq!(arena.num_blocks(), 2);
    assert_eq!(arena.block_capacity(1), largest);
    assert_eq!(arena.block_len(1), 0);
    assert_eq!(arena.block_len(0), 0);
}

#[test]
fn test_realloc_head_stays_in_place() {
    let mut arena = OwnedArena::new().unwrap();
    let p = arena.allocate(layout(16, 8)).unwrap();
    for j in 0..16 {
        arena.write_byte(p, j, j as u8);
    }
    let q = arena.reallocate(p, layout(16, 8), layout(32, 8)).unwrap();
    // The head allocation grows where it is: same address, bytes kept.
    assert_eq!(q.addr, p.addr);
    for j in 0..16 {
        assert_eq!(arena.read_byte(q, j), j as u8);
    }
}

#[test]
fn test_realloc_non_head_moves_and_copies() {
    let mut arena = OwnedArena::new().unwrap();
    let p = arena.allocate(layout(16, 1)).unwrap();
    for j in 0..16 {
        arena.write_byte(p, j, 100 + j as u8);
    }
    let _q = arena.allocate(layout(16, 1)).unwrap();
    let moved = arena.reallocate(p, layout(16, 1), layout(32, 1)).unwrap();
    assert_ne!(moved.addr, p.addr);
    for j in 0..16 {
        assert_eq!(arena.read_byte(moved, j), 100 + j as u8);
    }
}

#[test]
fn test_realloc_into_fresh_block_copies() {
    let mut arena = OwnedArena::new().unwrap();
    let p = arena.allocate(layout(64, 1)).unwrap();
    for j in 0..64 {
        arena.write_byte(p, j, 7);
    }
    // The new size exceeds the whole first block: the reallocation spills
    // into a fresh block and carries the old bytes over.
    let q = arena.reallocate(p, layout(64, 1), layout(6000, 1)).unwrap();
    assert_eq!(arena.num_blocks(), 2);
    assert_eq!(q.block_index, 1);
    for j in 0..64 {
        assert_eq!(arena.read_byte(q, j), 7);
    }
}

#[test]
fn test_realloc_leaves_abandoned_region_in_place() {
    let mut arena = OwnedArena::new().unwrap();
    let p = arena.allocate(layout(16, 1)).unwrap();
    for j in 0..16 {
        arena.write_byte(p, j, 60 + j as u8);
    }
    let _barrier = arena.allocate(layout(8, 1)).unwrap();
    let moved = arena.reallocate(p, layout(16, 1), layout(16, 1)).unwrap();
    assert_ne!(moved.addr, p.addr);
    // The old region is abandoned where it was, bytes intact, until a
    // scope reset reclaims it.
    for j in 0..16 {
        assert_eq!(arena.read_byte(p, j), 60 + j as u8);
        assert_eq!(arena.read_byte(moved, j), 60 + j as u8);
    }
}

#[test]
fn test_realloc_shrink_keeps_prefix() {
    let mut arena = OwnedArena::new().unwrap();
    let p = arena.allocate(layout(16, 1)).unwrap();
    for j in 0..16 {
        arena.write_byte(p, j, 50 + j as u8);
    }
    let q = arena.reallocate(p, layout(16, 1), layout(8, 1)).unwrap();
    for j in 0..8 {
        assert_eq!(arena.read_byte(q, j), 50 + j as u8);
    }
}

#[test]
fn test_alloc_zeroed_clears_reused_space() {
    let mut arena = OwnedArena::new().unwrap();
    let chk = arena.scope_checkpoint();
    let p = arena.allocate(layout(32, 1)).unwrap();
    for j in 0..32 {
        arena.write_byte(p, j, 0xAB);
    }
    arena.scope_restore(chk);
    // The same range is handed out again; zeroed allocation must clear
    // the stale bytes.
    let q = arena.alloc_zeroed(layout(32, 1)).unwrap();
    assert_eq!(q.addr, p.addr);
    for j in 0..32 {
        assert_eq!(arena.read_byte(q, j), 0);
    }
}

#[test]
fn test_alloc_excess_reports_exact_size() {
    let mut arena = OwnedArena::new().unwrap();
    let e = arena.alloc_excess(layout(40, 8)).unwrap();
    assert_eq!(e.1, 40);
    assert_eq!(e.0.addr % 8, 0);
    let e2 = arena.realloc_excess(e.0, layout(40, 8), layout(80, 8)).unwrap();
    assert_eq!(e2.1, 80);
}

#[test]
fn test_usable_size_promises_no_slack() {
    let arena = OwnedArena::new().unwrap();
    let l = layout(123, 4);
    assert_eq!(arena.usable_size(&l), (123, 123));
}

#[test]
fn test_deallocate_is_a_no_op() {
    let mut arena = OwnedArena::new().unwrap();
    let p = arena.allocate(layout(32, 8)).unwrap();
    let blocks = arena.num_blocks();
    let len = arena.block_len(p.block_index);
    arena.deallocate(p, layout(32, 8));
    assert_eq!(arena.num_blocks(), blocks);
    assert_eq!(arena.block_len(p.block_index), len);
}

#[test]
fn test_from_size_align_rejects_non_powers_of_two() {
    assert!(Layout::from_size_align(8, 3).is_none());
    assert!(Layout::from_size_align(8, 0).is_none());
    let l = Layout::from_size_align(8, 4).unwrap();
    assert_eq!(l.size, 8);
    assert_eq!(l.align, 4);
}

#[test]
fn test_align_padding_values() {
    assert_eq!(scoped_arena::layout::align_padding(5, 8), 3);
    assert_eq!(scoped_arena::layout::align_padding(8, 8), 0);
    assert_eq!(scoped_arena::layout::align_padding(9, 8), 7);
    assert_eq!(scoped_arena::layout::align_padding(0, 16), 0);
    assert!(scoped_arena::layout::is_aligned(32, 16));
    assert!(!scoped_arena::layout::is_aligned(33, 16));
}

#[test]
fn test_check_layout_boundary() {
    assert_eq!(scoped_arena::layout::check_layout(layout(MAX_OBJECT_SIZE, 1)), Ok(()));
    assert_eq!(
        scoped_arena::layout::check_layout(layout(MAX_OBJECT_SIZE + 1, 1)),
        Err(AllocErr::Unsupported)
    );
}

#[test]
fn test_block_with_capacity() {
    let b = OwnedArenaBlock::with_capacity(512).unwrap();
    assert_eq!(b.capacity(), 512);
    assert_eq!(b.used_len(), 0);
    assert_eq!(b.base_addr(), 0);
}

#[test]
fn test_block_allocate_and_exhaust() {
    let mut b = OwnedArenaBlock::with_capacity(16).unwrap();
    let off = b.allocate(layout(10, 1)).unwrap();
    assert_eq!(off, 0);
    assert_eq!(b.used_len(), 10);
    let r = b.allocate(layout(10, 1));
    assert_eq!(r, Err(AllocErr::Exhausted { request: layout(10, 1) }));
    assert_eq!(b.used_len(), 10);
}
