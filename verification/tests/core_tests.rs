use jank_os::allocator::{init_heap, AllocError, HeapAllocator, HeapBlock, HEAP_SIZE, HEAP_START};
use jank_os::fault::{
    enter_critical, exit_critical, init as fault_init, on_double_fault, FaultOutcome,
    InterruptFlag, DOUBLE_FAULT_IST_INDEX,
};
use jank_os::harness::run;
use jank_os::memory::{BootInfoFrameAllocator, MemoryRegion, RegionKind, FRAME_SIZE};
use jank_os::paging::{MapError, Mapper, PageFlags};
use jank_os::{host_exit_status, QemuExitCode};

fn usable(start: u64, len: u64) -> MemoryRegion {
    MemoryRegion {
        start,
        len,
        kind: RegionKind::Usable,
    }
}

fn reserved(start: u64, len: u64) -> MemoryRegion {
    MemoryRegion {
        start,
        len,
        kind: RegionKind::Reserved,
    }
}

fn writable() -> PageFlags {
    PageFlags {
        writable: true,
        user: false,
        no_exec: false,
    }
}

/// A boot memory map with plenty of usable frames.
fn big_map() -> Vec<MemoryRegion> {
    vec![
        reserved(0, 0x10_0000),
        usable(0x10_0000, 0x100_0000),
    ]
}

#[test]
fn trivial_assertion() {
    assert_eq!(1, 1);
    assert!(jank_os::trivial_assertion());
}

#[test]
fn exit_codes_match_the_hardware_protocol() {
    assert_eq!(QemuExitCode::Success.code(), 0x10);
    assert_eq!(QemuExitCode::Failed.code(), 0x11);
    // the hosting environment shifts left one bit and ORs 1
    assert_eq!(host_exit_status(QemuExitCode::Success.code()), 33);
    assert_eq!(host_exit_status(QemuExitCode::Failed.code()), 35);
}

#[test]
fn frames_come_in_ascending_order_and_pairwise_distinct() {
    let map = big_map();
    let mut fa = BootInfoFrameAllocator::init(&map);
    let mut got: Vec<u64> = Vec::new();
    for _ in 0..64 {
        got.push(fa.allocate().expect("plenty of frames"));
    }
    for i in 0..got.len() {
        assert_eq!(got[i] % FRAME_SIZE, 0);
        for j in (i + 1)..got.len() {
            assert_ne!(got[i], got[j]);
        }
        if i + 1 < got.len() {
            assert!(got[i] < got[i + 1]);
        }
    }
    assert_eq!(got[0], 0x10_0000);
    assert_eq!(got[1], 0x10_1000);
}

#[test]
fn partial_frames_and_reserved_regions_are_skipped() {
    // a usable region that is not frame-aligned: the partial frame at its
    // start is skipped, and the reserved region contributes nothing
    let map = vec![
        usable(0x1800, 0x2800),
        reserved(0x4000, 0x10_0000),
    ];
    let mut fa = BootInfoFrameAllocator::init(&map);
    assert_eq!(fa.allocate(), Some(0x2000));
    assert_eq!(fa.allocate(), Some(0x3000));
    assert_eq!(fa.allocate(), None);
}

#[test]
fn too_small_region_yields_no_frame() {
    let map = vec![usable(0x1001, 0xfff)];
    let mut fa = BootInfoFrameAllocator::init(&map);
    assert_eq!(fa.allocate(), None);
}

#[test]
fn map_then_translate_returns_frame_and_flags() {
    let map = big_map();
    let mut fa = BootInfoFrameAllocator::init(&map);
    let mut mapper = Mapper::init(0x8000_0000_0000, &mut fa).expect("root frame");
    let va: u64 = 0xdead_b000;
    let frame = fa.allocate().unwrap();
    assert_eq!(mapper.map(va, frame, writable(), &mut fa), Ok(()));
    // translate returns exactly the mapped frame plus the page offset
    assert_eq!(mapper.translate(va), Some((frame, writable())));
    assert_eq!(mapper.translate(va + 0xbee), Some((frame + 0xbee, writable())));
    // a second mapping of the same page is refused
    let frame2 = fa.allocate().unwrap();
    assert_eq!(mapper.map(va, frame2, writable(), &mut fa), Err(MapError::AlreadyMapped));
    // other pages stay unmapped
    assert_eq!(mapper.translate(va + 0x1000), None);
    assert_eq!(mapper.translate(0x1234_5000), None);
}

#[test]
fn unmapped_translation_is_a_normal_none() {
    let map = big_map();
    let mut fa = BootInfoFrameAllocator::init(&map);
    let mapper = Mapper::init(0, &mut fa).expect("root frame");
    assert_eq!(mapper.translate(0), None);
    assert_eq!(mapper.translate(0x4444_4444_0000), None);
}

#[test]
fn map_fails_out_of_frames_when_tables_cannot_be_allocated() {
    // exactly one usable frame: the mapper root consumes it
    let map = vec![usable(0x10_0000, 0x1000)];
    let mut fa = BootInfoFrameAllocator::init(&map);
    let mut mapper = Mapper::init(0, &mut fa).expect("root frame");
    let r = mapper.map(0x1000, 0x20_0000, writable(), &mut fa);
    assert_eq!(r, Err(MapError::OutOfFrames));
}

#[test]
fn init_heap_maps_the_whole_fixed_range() {
    let map = big_map();
    let mut fa = BootInfoFrameAllocator::init(&map);
    let mut mapper = Mapper::init(0, &mut fa).expect("root frame");
    let heap = init_heap(&mut mapper, &mut fa).expect("heap initialization failed");
    let free = heap.free_list();
    assert_eq!(free.len(), 1);
    assert_eq!(free[0], HeapBlock { start: HEAP_START, size: HEAP_SIZE });
    // every page of the range is mapped writable
    let mut page = HEAP_START;
    while page < HEAP_START + HEAP_SIZE {
        let (_phys, flags) = mapper.translate(page).expect("heap page mapped");
        assert_eq!(flags, writable());
        page += FRAME_SIZE;
    }
    // and the range right after it is not
    assert_eq!(mapper.translate(HEAP_START + HEAP_SIZE), None);
}

#[test]
fn init_heap_fails_when_frames_run_out() {
    let map = vec![usable(0x10_0000, 0x3000)];
    let mut fa = BootInfoFrameAllocator::init(&map);
    let mut mapper = Mapper::init(0, &mut fa).expect("root frame");
    assert!(init_heap(&mut mapper, &mut fa).is_err());
}

fn sums(h: &HeapAllocator) -> (u64, u64) {
    let free: u64 = h.free_list().iter().map(|b| b.size).sum();
    let allocated: u64 = h.allocated_list().iter().map(|b| b.size).sum();
    (free, allocated)
}

#[test]
fn heap_bytes_are_conserved_after_every_operation() {
    let mut h = HeapAllocator::new(HEAP_START, HEAP_SIZE);
    assert_eq!(sums(&h), (HEAP_SIZE, 0));
    let a = h.allocate(100, 8).unwrap();
    let (f1, a1) = sums(&h);
    assert_eq!(f1 + a1, HEAP_SIZE);
    assert_eq!(a1, 100);
    let b = h.allocate(50, 32).unwrap();
    let (f2, a2) = sums(&h);
    assert_eq!(f2 + a2, HEAP_SIZE);
    h.deallocate(HeapBlock { start: a, size: 100 });
    let (f3, a3) = sums(&h);
    assert_eq!(f3 + a3, HEAP_SIZE);
    assert_eq!(a3, 50);
    h.deallocate(HeapBlock { start: b, size: 50 });
    let (f4, a4) = sums(&h);
    assert_eq!((f4, a4), (HEAP_SIZE, 0));
}

#[test]
fn first_fit_splits_and_coalescing_restores() {
    let mut h = HeapAllocator::new(HEAP_START, HEAP_SIZE);
    let a = h.allocate(16, 1).unwrap();
    assert_eq!(a, HEAP_START);
    let b = h.allocate(16, 1).unwrap();
    assert_eq!(b, HEAP_START + 16);
    let c = h.allocate(16, 1).unwrap();
    assert_eq!(c, HEAP_START + 32);
    // free the middle region, then its neighbours: everything coalesces
    h.deallocate(HeapBlock { start: b, size: 16 });
    assert_eq!(h.free_list().len(), 2);
    h.deallocate(HeapBlock { start: a, size: 16 });
    assert_eq!(h.free_list().len(), 2);
    h.deallocate(HeapBlock { start: c, size: 16 });
    let free = h.free_list();
    assert_eq!(free.len(), 1);
    assert_eq!(free[0], HeapBlock { start: HEAP_START, size: HEAP_SIZE });
}

#[test]
fn alignment_is_honoured_and_padding_stays_free() {
    let mut h = HeapAllocator::new(HEAP_START + 1, 4096);
    let p = h.allocate(64, 64).unwrap();
    assert_eq!(p % 64, 0);
    assert!(p >= HEAP_START + 1);
    let (f, a) = sums(&h);
    assert_eq!(a, 64);
    assert_eq!(f + a, 4096);
}

#[test]
fn exhausted_heap_reports_and_recovers() {
    let mut h = HeapAllocator::new(0x1000, 64);
    let p = h.allocate(64, 1).unwrap();
    assert_eq!(h.allocate(1, 1), Err(AllocError::Exhausted));
    h.deallocate(HeapBlock { start: p, size: 64 });
    assert!(h.allocate(64, 1).is_ok());
}

/// Allocating and immediately freeing one fixed size, once per unit of
/// heap capacity, never exhausts the heap: nothing leaks across the loop.
#[test]
fn many_boxes() {
    let size: u64 = 8;
    let mut h = HeapAllocator::new(HEAP_START, HEAP_SIZE);
    for i in 0..HEAP_SIZE {
        let p = h
            .allocate(size, 8)
            .unwrap_or_else(|_| panic!("exhausted at iteration {i}"));
        h.deallocate(HeapBlock { start: p, size });
    }
    let free = h.free_list();
    assert_eq!(free.len(), 1);
    assert_eq!(free[0], HeapBlock { start: HEAP_START, size: HEAP_SIZE });
}

#[test]
fn simple_allocation() {
    // two heap-backed values live at once read back their values
    let mut h = HeapAllocator::new(HEAP_START, HEAP_SIZE);
    let p1 = h.allocate(8, 8).unwrap();
    let p2 = h.allocate(8, 8).unwrap();
    let store = vec![(p1, 42u64), (p2, 1337u64)];
    assert_eq!(store.iter().find(|e| e.0 == p1).unwrap().1, 42);
    assert_eq!(store.iter().find(|e| e.0 == p2).unwrap().1, 1337);
}

/// The two regions of concurrently live values never overlap.
#[test]
fn heap_values_live_concurrently() {
    let mut h = HeapAllocator::new(HEAP_START, HEAP_SIZE);
    let p1 = h.allocate(8, 8).unwrap();
    let p2 = h.allocate(8, 8).unwrap();
    let v1: u64 = 41;
    let v2: u64 = 1337;
    assert!(p1 + 8 <= p2 || p2 + 8 <= p1);
    assert_eq!(v1, 41);
    assert_eq!(v2, 1337);
    h.deallocate(HeapBlock { start: p1, size: 8 });
    h.deallocate(HeapBlock { start: p2, size: 8 });
}

/// A dynamically growing sequence backed by heap regions: push 0..1000,
/// sum is 499500.
#[test]
fn large_vec() {
    let mut h = HeapAllocator::new(HEAP_START, HEAP_SIZE);
    let mut region = h.allocate(8, 8).unwrap();
    let mut capacity: u64 = 1; // elements of 8 bytes
    let mut values: Vec<u64> = Vec::new();
    for i in 0..1000u64 {
        if values.len() as u64 == capacity {
            // grow: double the backing region
            h.deallocate(HeapBlock { start: region, size: capacity * 8 });
            capacity *= 2;
            region = h.allocate(capacity * 8, 8).expect("heap large enough");
        }
        values.push(i);
    }
    let n: u64 = 1000;
    assert_eq!(values.iter().sum::<u64>(), (n - 1) * n / 2);
    assert_eq!(values.iter().sum::<u64>(), 499500);
}

#[test]
fn stack_overflow() {
    // unbounded recursion exhausts the primary stack; with the dedicated
    // stack installed the double fault is caught and reported, not a reset
    let cfg = fault_init(0x5555_0000);
    let interrupted_stack_corrupt = true;
    let outcome = on_double_fault(&cfg, interrupted_stack_corrupt);
    assert_eq!(outcome, FaultOutcome::Caught);
    // the test build then signals success through the exit port
    assert_eq!(QemuExitCode::Success.code(), 0x10);
}

#[test]
fn double_fault_without_dedicated_stack_resets() {
    let cfg = jank_os::fault::FaultConfig {
        ist_stacks: vec![None; 7],
        double_fault: None,
    };
    assert_eq!(on_double_fault(&cfg, true), FaultOutcome::Reset);
}

#[test]
fn fault_init_is_idempotent() {
    let a = fault_init(0x9000);
    let b = fault_init(0x9000);
    assert_eq!(a.double_fault, b.double_fault);
    assert_eq!(a.ist_stacks, b.ist_stacks);
    assert_eq!(a.ist_stacks[DOUBLE_FAULT_IST_INDEX], Some(0x9000));
}

#[test]
fn critical_sections_restore_interrupt_state() {
    let mut f = InterruptFlag { enabled: true };
    let saved = enter_critical(&mut f);
    assert!(!f.enabled);
    // a nested section keeps delivery masked until the outermost exit
    let saved_inner = enter_critical(&mut f);
    assert!(!f.enabled);
    exit_critical(&mut f, saved_inner);
    assert!(!f.enabled);
    exit_critical(&mut f, saved);
    assert!(f.enabled);
}

#[test]
fn harness_runs_cases_in_order_and_stops_at_first_failure() {
    let all_ok = vec![true, true, true];
    assert_eq!(run(&all_ok), (3, QemuExitCode::Success));
    let middle_fails = vec![true, false, true];
    assert_eq!(run(&middle_fails), (2, QemuExitCode::Failed));
    let empty: Vec<bool> = Vec::new();
    assert_eq!(run(&empty), (0, QemuExitCode::Success));
}
