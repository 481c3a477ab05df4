// Tests for the pool allocator: simple acquire/release, reuse of freed
// blocks, error handling (double release, oversized requests), the free
// counter, and timing runs.

use slab_allocator::allocator::DeallocError;
use slab_allocator::allocator::SlabAllocator;
use slab_allocator::allocator::BLOCK_SIZE;
use slab_allocator::allocator::NUM_BLOCKS;
use std::alloc::Layout;
use std::time::Instant;

#[test]
fn test_allocation_simple() {
    let mut a = SlabAllocator::new();
    a.init();

    let layout = Layout::from_size_align(16, 8).expect("Layout invalide");

    let ptr = a.acquire(layout.size(), layout.align());
    assert!(ptr.is_some(), "Erreur : allocation échouée");
}

#[test]
fn test_deallocation() {
    let mut a = SlabAllocator::new();
    a.init();

    let layout = Layout::from_size_align(16, 8).expect("Layout invalide");

    let ptr = a.acquire(layout.size(), layout.align());
    assert!(ptr.is_some(), "Erreur : allocation échouée");
    let addr = ptr.unwrap();

    assert_eq!(a.read_byte(addr), 0, "Erreur : mémoire non initialisée ou corrompue");

    assert!(a.release(addr).is_ok());
}

#[test]
fn test_reuse_freed_block() {
    let mut a = SlabAllocator::new();
    a.init();

    let layout = Layout::from_size_align(16, 8).expect("Layout invalide");

    let ptr1 = a.acquire(layout.size(), layout.align());
    assert!(ptr1.is_some(), "Erreur : allocation échouée");

    a.release(ptr1.unwrap()).unwrap();

    let ptr2 = a.acquire(layout.size(), layout.align());
    assert!(ptr2.is_some(), "Erreur : réutilisation échouée");
}

#[test]
fn test_allocation_to_saturation() {
    let mut a = SlabAllocator::new();
    a.init();

    let layout = Layout::from_size_align(16, 8).expect("Layout invalide");

    for _ in 0..NUM_BLOCKS {
        let ptr = a.acquire(layout.size(), layout.align());
        assert!(ptr.is_some(), "Erreur : saturation prématurée");
    }
}

#[test]
fn test_allocation_refusal_on_saturation() {
    let mut a = SlabAllocator::new();
    a.init();

    let layout = Layout::from_size_align(16, 8).expect("Layout invalide");

    for _ in 0..NUM_BLOCKS {
        let ptr = a.acquire(layout.size(), layout.align());
        assert!(ptr.is_some(), "Erreur : saturation prématurée");
    }

    let ptr = a.acquire(layout.size(), layout.align());
    assert!(ptr.is_none(), "Erreur : dépassement mémoire accepté");
}

#[test]
fn test_invalid_layout() {
    let mut a = SlabAllocator::new();
    a.init();

    let invalid_layout = Layout::from_size_align(16, 3);
    assert!(invalid_layout.is_err(), "Erreur : alignement invalide accepté");

    let too_large_layout = Layout::from_size_align(128, 8).expect("Layout invalide");
    let ptr = a.acquire(too_large_layout.size(), too_large_layout.align());
    assert!(ptr.is_none(), "Erreur : allocation incorrecte pour une taille trop grande");
}

#[test]
fn test_free_count() {
    let mut a = SlabAllocator::new();
    a.init();

    let layout = Layout::from_size_align(16, 8).expect("Layout invalide");

    let ptr1 = a.acquire(layout.size(), layout.align());
    assert!(ptr1.is_some(), "Erreur : allocation échouée");
    assert_eq!(a.free_count(), NUM_BLOCKS - 1, "Erreur : compteur incorrect après allocation");

    a.release(ptr1.unwrap()).unwrap();
    assert_eq!(a.free_count(), NUM_BLOCKS, "Erreur : compteur incorrect après désallocation");
}

#[test]
#[should_panic(expected = "Erreur : tentative de double désallocation détectée !")]
fn test_double_deallocation() {
    let mut a = SlabAllocator::new();
    a.init();
    let layout = Layout::from_size_align(16, 8).expect("Layout invalide");

    let ptr = a.acquire(layout.size(), layout.align());
    assert!(ptr.is_some(), "Erreur : allocation échouée");
    let addr = ptr.unwrap();

    if a.release(addr).is_err() {
        panic!("Erreur : tentative de double désallocation détectée !");
    }

    if a.release(addr).is_err() {
        panic!("Erreur : tentative de double désallocation détectée !");
    }
}

#[test]
fn test_use_after_free() {
    let mut a = SlabAllocator::new();
    a.init();
    let layout = Layout::from_size_align(16, 8).expect("Layout invalide");

    let ptr = a.acquire(layout.size(), layout.align());
    assert!(ptr.is_some(), "Erreur : allocation échouée");
    let addr = ptr.unwrap();

    a.release(addr).unwrap();

    // The release wrote free-list linkage over the block's leading bytes, so
    // a stale reader no longer sees its old contents.
    let dereferenced_value = a.read_byte(addr);
    assert_ne!(dereferenced_value, 0, "Erreur : utilisation après libération détectée");
}

#[test]
fn test_allocation_performance() {
    let mut a = SlabAllocator::new();
    a.init();
    let layout = Layout::from_size_align(16, 8).expect("Layout invalide");
    let start = Instant::now();

    for _ in 0..NUM_BLOCKS {
        let ptr = a.acquire(layout.size(), layout.align());
        assert!(ptr.is_some(), "Erreur : allocation échouée");
    }

    let duration = start.elapsed();
    println!("Temps pour allouer {} blocs : {:?}", NUM_BLOCKS, duration);
}

#[test]
fn test_allocation_and_deallocation_performance() {
    let mut a = SlabAllocator::new();
    a.init();
    let layout = Layout::from_size_align(16, 8).expect("Layout invalide");
    let start = Instant::now();

    for i in 0..NUM_BLOCKS {
        let ptr = a.acquire(layout.size(), layout.align());
        assert!(ptr.is_some(), "Erreur : allocation échouée");
        if i % 2 == 0 {
            a.release(ptr.unwrap()).unwrap();
        }
    }

    let duration = start.elapsed();
    println!(
        "Temps pour allouer et désallouer partiellement {} blocs : {:?}",
        NUM_BLOCKS, duration
    );
}

#[test]
fn test_first_fit_allocation() {
    let mut a = SlabAllocator::new();
    a.init();
    let layout = Layout::from_size_align(16, 8).expect("Layout invalide");

    for _ in 0..NUM_BLOCKS / 2 {
        let ptr = a.acquire(layout.size(), layout.align());
        assert!(ptr.is_some(), "Erreur : allocation échouée");
    }

    let ptr = a.acquire(layout.size(), layout.align()).unwrap();
    a.release(ptr).unwrap();

    let ptr_reuse = a.acquire(layout.size(), layout.align()).unwrap();
    assert_eq!(ptr, ptr_reuse, "Erreur : premier ajustement incorrect");
}

#[test]
fn test_capacity_after_init() {
    let mut a = SlabAllocator::new();
    a.init();
    assert_eq!(a.free_count(), NUM_BLOCKS);
    assert_eq!(a.free_count(), 128);
}

#[test]
fn test_count_tracks_outstanding_blocks() {
    let mut a = SlabAllocator::new();
    a.init();

    let mut held: Vec<usize> = Vec::new();
    for _ in 0..10 {
        held.push(a.acquire(16, 8).unwrap());
    }
    assert_eq!(a.free_count(), NUM_BLOCKS - 10);

    for _ in 0..4 {
        a.release(held.pop().unwrap()).unwrap();
    }
    assert_eq!(a.free_count(), NUM_BLOCKS - 6);

    while let Some(addr) = held.pop() {
        a.release(addr).unwrap();
    }
    assert_eq!(a.free_count(), NUM_BLOCKS);
}

#[test]
fn test_saturation_addresses_distinct() {
    let mut a = SlabAllocator::new();
    a.init();

    let mut addrs: Vec<usize> = Vec::new();
    for _ in 0..NUM_BLOCKS {
        addrs.push(a.acquire(16, 8).unwrap());
    }
    assert!(a.acquire(16, 8).is_none());
    assert_eq!(a.free_count(), 0);

    addrs.sort();
    for w in addrs.windows(2) {
        assert_ne!(w[0], w[1]);
    }
    for addr in &addrs {
        assert_eq!(addr % BLOCK_SIZE, 0);
        assert!(addr + BLOCK_SIZE <= BLOCK_SIZE * NUM_BLOCKS);
    }
}

#[test]
fn test_oversized_request_rejected_without_count_change() {
    let mut a = SlabAllocator::new();
    a.init();

    assert!(a.acquire(BLOCK_SIZE + 1, 8).is_none());
    assert_eq!(a.free_count(), NUM_BLOCKS);

    // A request of exactly the slot size is still served.
    assert!(a.acquire(BLOCK_SIZE, 8).is_some());
}

#[test]
fn test_overaligned_request_not_rejected() {
    // Alignment is not validated by this layer: a request for more alignment
    // than the arena guarantees is still served (a documented gap, not an
    // error path).
    let mut a = SlabAllocator::new();
    a.init();

    assert!(a.acquire(16, 64).is_some());
    assert_eq!(a.free_count(), NUM_BLOCKS - 1);
}

#[test]
fn test_double_release_reports_fatal_error() {
    let mut a = SlabAllocator::new();
    a.init();

    let addr = a.acquire(16, 8).unwrap();
    assert_eq!(a.release(addr), Ok(()));
    assert_eq!(a.release(addr), Err(DeallocError::DoubleRelease));
    // The failed release changed nothing.
    assert_eq!(a.free_count(), NUM_BLOCKS);
}

#[test]
fn test_released_block_carries_link_word() {
    let mut a = SlabAllocator::new();
    a.init();

    // The first acquire serves the highest slot; after its release the
    // block's leading bytes hold the offset of the next free slot,
    // 126 * 32 = 4032, little-endian.
    let addr = a.acquire(16, 8).unwrap();
    assert_eq!(addr, (NUM_BLOCKS - 1) * BLOCK_SIZE);
    a.release(addr).unwrap();

    assert_eq!(a.read_byte(addr), 192);
    assert_eq!(a.read_byte(addr + 1), 15);
    for t in 2..8 {
        assert_eq!(a.read_byte(addr + t), 0);
    }
}

#[test]
fn test_payload_survives_release_and_reacquire() {
    let mut a = SlabAllocator::new();
    a.init();

    let addr = a.acquire(32, 8).unwrap();
    a.write_byte(addr + 20, 173);
    assert_eq!(a.read_byte(addr + 20), 173);

    a.release(addr).unwrap();
    let again = a.acquire(32, 8).unwrap();
    assert_eq!(again, addr);

    // Acquire hands the slot out as-is: bytes past the link word keep
    // whatever the previous holder wrote.
    assert_eq!(a.read_byte(again + 20), 173);
    // The stale link word itself was cleared when the slot left the list.
    assert_eq!(a.read_byte(again), 0);
}

#[test]
fn test_reinit_resets_bookkeeping() {
    let mut a = SlabAllocator::new();
    a.init();
    for _ in 0..5 {
        assert!(a.acquire(16, 8).is_some());
    }
    assert_eq!(a.free_count(), NUM_BLOCKS - 5);

    // Re-initialization silently discards outstanding bookkeeping.
    a.init();
    assert_eq!(a.free_count(), NUM_BLOCKS);
}

#[test]
fn test_acquire_before_init_fails() {
    let mut a = SlabAllocator::new();
    assert_eq!(a.free_count(), 0);
    assert!(a.acquire(16, 8).is_none());
}
