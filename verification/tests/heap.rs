use ventura::blocks::HEAP_MAGIC;
use ventura::heap::{
    allocate, deallocate, expand_heap, init, read_payload, stats, write_payload,
    DeallocateOutcome, HeapState, HEAP_START_ADDR,
};
use ventura::heap_check::{test_heap, test_heap_hardened, verify_invariants};
use ventura::memory::{init_from_uefi, PhysicalMemoryMap, EFI_CONVENTIONAL_MEMORY};
use ventura::paging::{read_word, write_word, MemoryManager};
use ventura::pmm::{allocate_physical_page, PageAllocator};
use ventura::vmm::{PageTable, VirtAddr, VmmError};

struct Machine {
    frames: Vec<PageTable>,
    mm: MemoryManager,
    heap: HeapState,
}

fn machine(pages: u64) -> Machine {
    let mut raw = vec![0u8; 48];
    raw[0..4].copy_from_slice(&EFI_CONVENTIONAL_MEMORY.to_le_bytes());
    raw[24..32].copy_from_slice(&pages.to_le_bytes());
    let mut map = PhysicalMemoryMap::new();
    init_from_uefi(&mut map, &raw, 48, 1);
    let mut pmm = PageAllocator::new();
    ventura::pmm::init(&mut pmm, &map);
    let mut frames = vec![PageTable::empty(); pages as usize];
    let mut mm = MemoryManager::new(pmm);
    ventura::kernel_space::init(&mut frames, &mut mm, &map);
    Machine { frames, mm, heap: HeapState::new() }
}

fn with_heap(pages: u64) -> Machine {
    let mut m = machine(pages);
    init(&mut m.frames, &mut m.mm, &mut m.heap).unwrap();
    m
}

fn take(m: &mut Machine, size: u64) -> u64 {
    allocate(&mut m.frames, &mut m.mm, &mut m.heap, size)
}

fn give(m: &mut Machine, ptr: u64, size: u64) -> DeallocateOutcome {
    deallocate(&mut m.frames, &m.mm, &mut m.heap, ptr, size)
}

fn check(m: &Machine) -> Result<(), &'static str> {
    verify_invariants(&m.frames, &m.mm, &m.heap)
}

#[test]
fn a_new_heap_is_one_free_block() {
    let mut m = machine(1024);
    assert_eq!(check(&m), Err("Heap is not initialized"));
    assert_eq!(take(&mut m, 8), 0);
    assert_eq!(give(&mut m, HEAP_START_ADDR + 32, 8), DeallocateOutcome::Ignored);
    init(&mut m.frames, &mut m.mm, &mut m.heap).unwrap();
    let s = stats(&m.heap);
    assert_eq!(s.total_bytes, 131_072);
    assert_eq!(s.free_bytes, 131_040);
    assert_eq!(s.allocated_bytes, 0);
    assert_eq!(check(&m), Ok(()));
    assert_eq!(init(&mut m.frames, &mut m.mm, &mut m.heap), Ok(()));
    assert_eq!(stats(&m.heap), s);
}

#[test]
fn a_heap_needs_its_place_and_memory() {
    let mut m = machine(64);
    while ventura::pmm::stats(&m.mm.pmm).free_pages > 20 {
        allocate_physical_page(&mut m.mm.pmm).unwrap();
    }
    assert_eq!(
        init(&mut m.frames, &mut m.mm, &mut m.heap),
        Err(VmmError::PhysicalAllocationFailed)
    );
    assert!(!m.heap.initialized);
    assert_eq!(ventura::pmm::stats(&m.mm.pmm).free_pages, 20);
}

#[test]
fn requests_are_served_first_fit_and_aligned() {
    let mut m = with_heap(1024);
    let a = take(&mut m, 1);
    let b = take(&mut m, 100);
    let c = take(&mut m, 16);
    assert_eq!(a, HEAP_START_ADDR + 32);
    assert_eq!(b, a + 16 + 32);
    assert_eq!(c, b + 112 + 32);
    assert_eq!(stats(&m.heap).allocated_bytes, 144);
    assert_eq!(stats(&m.heap).allocation_count, 3);
    assert_eq!(give(&mut m, b, 100), DeallocateOutcome::Freed);
    assert_eq!(take(&mut m, 112), b);
    assert_eq!(give(&mut m, b, 112), DeallocateOutcome::Freed);
    assert_eq!(take(&mut m, 16), b);
    assert_eq!(take(&mut m, 48), b + 48);
    assert_eq!(check(&m), Ok(()));
}

#[test]
fn a_rest_too_small_for_a_block_stays_with_the_request() {
    let mut m = with_heap(1024);
    let a = take(&mut m, 64);
    let b = take(&mut m, 16);
    give(&mut m, a, 64);
    assert_eq!(take(&mut m, 32), a);
    assert_eq!(stats(&m.heap).allocated_bytes, 64 + 16);
    assert_eq!(give(&mut m, b, 16), DeallocateOutcome::Freed);
    assert_eq!(check(&m), Ok(()));
}

#[test]
fn neighbours_join_and_the_heap_is_whole_again() {
    let mut m = with_heap(1024);
    let before = stats(&m.heap);
    let p: Vec<u64> = (0..4).map(|i| take(&mut m, 40 + i)).collect();
    for i in [1, 3, 0, 2] {
        assert_eq!(give(&mut m, p[i], 40), DeallocateOutcome::Freed);
        assert_eq!(check(&m), Ok(()));
    }
    let s = stats(&m.heap);
    assert_eq!(s.free_bytes, before.free_bytes);
    assert_eq!(s.allocated_bytes, 0);
    assert_eq!(s.free_count, 4);
    assert_eq!(take(&mut m, 131_040), HEAP_START_ADDR + 32);
}

#[test]
fn payloads_keep_their_words() {
    let mut m = with_heap(1024);
    let a = take(&mut m, 64);
    let b = take(&mut m, 64);
    for i in 0..8 {
        write_payload(&mut m.frames, &m.mm, &m.heap, a + 8 * i, 100 + i);
        write_payload(&mut m.frames, &m.mm, &m.heap, b + 8 * i, 200 + i);
    }
    let c = take(&mut m, 4096);
    give(&mut m, c, 4096);
    for i in 0..8 {
        assert_eq!(read_payload(&m.frames, &m.mm, &m.heap, a + 8 * i), 100 + i);
        assert_eq!(read_payload(&m.frames, &m.mm, &m.heap, b + 8 * i), 200 + i);
    }
}

#[test]
fn freed_bytes_are_poisoned_and_not_freed_twice() {
    let mut m = with_heap(1024);
    let a = take(&mut m, 32);
    let b = take(&mut m, 32);
    let root = m.mm.root;
    assert_eq!(give(&mut m, a, 32), DeallocateOutcome::Freed);
    assert_eq!(read_word(&m.frames, &m.mm, root, VirtAddr(a)), 0xDEDE_DEDE_DEDE_DEDE);
    assert_eq!(give(&mut m, a, 32), DeallocateOutcome::DoubleFree);
    assert_eq!(give(&mut m, 0, 32), DeallocateOutcome::Ignored);
    assert_eq!(give(&mut m, b, 0), DeallocateOutcome::Ignored);
    write_word(&mut m.frames, &m.mm, root, VirtAddr(b - 32), HEAP_MAGIC as u64 + 1);
    assert_eq!(give(&mut m, b, 32), DeallocateOutcome::InvalidMagic);
    assert_eq!(
        check(&m),
        Err("Heap invariant failure: Block header magic corruption")
    );
}

#[test]
fn no_bytes_and_too_many_bytes() {
    let mut m = with_heap(1024);
    assert_eq!(take(&mut m, 0), 1);
    assert_eq!(take(&mut m, 129 * 4096), 0);
    assert_eq!(take(&mut m, 0x7FFF_FFFF_FFFF_FFFF), 0);
    assert_eq!(stats(&m.heap).expansion_count, 0);
}

#[test]
fn the_heap_grows_on_demand() {
    let mut m = with_heap(2048);
    let p = take(&mut m, 131_040);
    assert_eq!(p, HEAP_START_ADDR + 32);
    let q = take(&mut m, 16);
    assert_eq!(q, HEAP_START_ADDR + 131_072 + 32);
    let s = stats(&m.heap);
    assert_eq!(s.total_bytes, 131_072 + 65_536);
    assert_eq!(s.expansion_count, 1);
    assert_eq!(check(&m), Ok(()));
    let r = take(&mut m, 100 * 4096);
    assert_ne!(r, 0);
    assert_eq!(stats(&m.heap).expansion_count, 2);
    assert!(expand_heap(&mut m.frames, &mut m.mm, &mut m.heap, 16));
    assert_eq!(stats(&m.heap).expansion_count, 3);
    assert_eq!(check(&m), Ok(()));
}

#[test]
fn growth_without_memory_is_refused() {
    let mut m = with_heap(256);
    take(&mut m, 131_040);
    while ventura::pmm::stats(&m.mm.pmm).free_pages > 3 {
        allocate_physical_page(&mut m.mm.pmm).unwrap();
    }
    assert_eq!(take(&mut m, 16), 0);
    assert_eq!(ventura::pmm::stats(&m.mm.pmm).free_pages, 3);
    assert_eq!(check(&m), Ok(()));
}

#[test]
fn the_heap_passes_its_self_tests() {
    let mut m = with_heap(1024);
    assert_eq!(test_heap_hardened(&mut m.frames, &mut m.mm, &mut m.heap), Ok(()));
    assert_eq!(check(&m), Ok(()));
    let mut m = with_heap(1024);
    assert_eq!(test_heap(&mut m.frames, &mut m.mm, &mut m.heap), Ok(()));
}

#[test]
fn the_self_test_names_the_request_that_fails() {
    let cases = [
        (48, "64-byte allocation returned null!"),
        (512, "1024-byte allocation returned null!"),
        (2048, "Large heap expansion allocation returned null!"),
    ];
    for (rest, message) in cases {
        let mut m = with_heap(256);
        assert_ne!(take(&mut m, 131_040 - 32 - rest), 0);
        while ventura::pmm::stats(&m.mm.pmm).free_pages > 0 {
            allocate_physical_page(&mut m.mm.pmm).unwrap();
        }
        assert_eq!(test_heap_hardened(&mut m.frames, &mut m.mm, &mut m.heap), Err(message));
        assert_eq!(check(&m), Ok(()));
    }
}

#[test]
fn growth_beyond_a_batch_leaves_no_trace() {
    let mut m = with_heap(1024);
    let before = ventura::pmm::stats(&m.mm.pmm);
    let end = m.heap.current_end;
    assert!(!expand_heap(&mut m.frames, &mut m.mm, &mut m.heap, 524_272));
    assert_eq!(ventura::pmm::stats(&m.mm.pmm), before);
    assert_eq!(m.heap.current_end, end);
    assert_eq!(check(&m), Ok(()));
}

#[test]
fn the_heap_is_sound_after_its_self_tests() {
    let mut m = with_heap(1024);
    assert_eq!(test_heap(&mut m.frames, &mut m.mm, &mut m.heap), Ok(()));
    assert_eq!(check(&m), Ok(()));
    assert_eq!(test_heap_hardened(&mut m.frames, &mut m.mm, &mut m.heap), Ok(()));
    assert_eq!(check(&m), Ok(()));
}

#[test]
fn what_a_request_got_can_be_undone() {
    let mut m = with_heap(1024);
    let other = take(&mut m, 100);
    write_payload(&mut m.frames, &m.mm, &m.heap, other, 7);
    let before = stats(&m.heap);
    let p = take(&mut m, 64);
    assert_eq!(p % 16, 0);
    assert_eq!(p, other + 112 + 32);
    assert_eq!(give(&mut m, p, 64), DeallocateOutcome::Freed);
    let after = stats(&m.heap);
    assert_eq!(after.allocated_bytes, before.allocated_bytes);
    assert_eq!(after.free_bytes, before.free_bytes);
    assert_eq!(after.free_count, before.free_count + 1);
    for i in 0..8 {
        let word = read_word(&m.frames, &m.mm, m.mm.root, VirtAddr::new(p + 8 * i));
        assert_eq!(word, 0xDEDE_DEDE_DEDE_DEDE);
    }
    assert_eq!(give(&mut m, p, 64), DeallocateOutcome::DoubleFree);
    assert_eq!(stats(&m.heap), after);
    assert_eq!(read_payload(&m.frames, &m.mm, &m.heap, other), 7);
    assert_eq!(check(&m), Ok(()));
}

#[test]
fn the_self_test_leaves_the_rest_of_memory() {
    let mut m = with_heap(1024);
    let stack = ventura::context::KernelStack::allocate(&mut m.frames, &mut m.mm).unwrap();
    let root = m.mm.root;
    let word = VirtAddr::new(stack.bottom() + 16);
    write_word(&mut m.frames, &m.mm, root, word, 0x1234);
    let p = take(&mut m, 40);
    write_payload(&mut m.frames, &m.mm, &m.heap, p + 32, 0x5678);
    assert_eq!(test_heap(&mut m.frames, &mut m.mm, &mut m.heap), Ok(()));
    assert_eq!(read_word(&m.frames, &m.mm, root, word), 0x1234);
    assert_eq!(read_payload(&m.frames, &m.mm, &m.heap, p + 32), 0x5678);
}

#[test]
fn the_self_test_counts_its_requests() {
    let mut m = with_heap(1024);
    let before = stats(&m.heap);
    let end = m.heap.current_end;
    assert_eq!(test_heap(&mut m.frames, &mut m.mm, &mut m.heap), Ok(()));
    let after = stats(&m.heap);
    assert_eq!(after.allocation_count, before.allocation_count + 4);
    assert_eq!(after.free_count, before.free_count + 4);
    assert_eq!(after.expansion_count, before.expansion_count + 1);
    assert_eq!(m.heap.current_end, end + 65 * 4096);
    assert_eq!(after.total_bytes, before.total_bytes + 65 * 4096);
    assert_eq!(after.allocated_bytes, 0);
    assert_eq!(after.free_bytes, after.total_bytes - 32);
    assert_eq!(test_heap(&mut m.frames, &mut m.mm, &mut m.heap), Ok(()));
    assert_eq!(stats(&m.heap).expansion_count, after.expansion_count);
}

#[test]
fn a_full_heap_grows_twice_in_its_self_test() {
    let mut m = with_heap(1024);
    take(&mut m, 131_040);
    let before = stats(&m.heap);
    while ventura::pmm::stats(&m.mm.pmm).free_pages > 100 {
        allocate_physical_page(&mut m.mm.pmm).unwrap();
    }
    assert_eq!(test_heap(&mut m.frames, &mut m.mm, &mut m.heap), Ok(()));
    let after = stats(&m.heap);
    assert_eq!(after.expansion_count, before.expansion_count + 2);
    assert_eq!(after.total_bytes, before.total_bytes + 81 * 4096);
    assert_eq!(ventura::pmm::stats(&m.mm.pmm).free_pages, 100 - 81);
}

#[test]
fn marks_of_the_processor_do_not_matter() {
    let mut m = with_heap(1024);
    let p = take(&mut m, 64);
    write_payload(&mut m.frames, &m.mm, &m.heap, p, 0x1234);
    let root = (m.mm.root.0 / 4096) as usize;
    let addr = VirtAddr::new(p);
    let upper = (m.frames[root].entries[addr.pml4_index()].phys_addr() / 4096) as usize;
    let lower = (m.frames[upper].entries[addr.pdpt_index()].phys_addr() / 4096) as usize;
    let last = (m.frames[lower].entries[addr.pd_index()].phys_addr() / 4096) as usize;
    m.frames[root].entries[addr.pml4_index()].0 |= 0x20;
    m.frames[upper].entries[addr.pdpt_index()].0 |= 0x20;
    m.frames[lower].entries[addr.pd_index()].0 |= 0x20;
    m.frames[last].entries[addr.pt_index()].0 |= 0x60;
    assert_eq!(read_payload(&m.frames, &m.mm, &m.heap, p), 0x1234);
    assert_eq!(check(&m), Ok(()));
    assert_eq!(test_heap(&mut m.frames, &mut m.mm, &mut m.heap), Ok(()));
    assert_eq!(give(&mut m, p, 64), DeallocateOutcome::Freed);
    assert_eq!(check(&m), Ok(()));
}
