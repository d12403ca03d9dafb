use kmem::page::{
    align_value, alloc_pages, dealloc, deallocate_all_pages, init, zalloc, FrameAllocator,
    MemoryError, Page, PageBits, PAGE_SIZE,
};

const HEAP_START: usize = 0x8000_0000;

fn frames(n: usize) -> FrameAllocator {
    init(HEAP_START, n * PAGE_SIZE)
}

fn flags(f: &FrameAllocator) -> Vec<u8> {
    (0..f.num_frames()).map(|i| f.flags(i)).collect()
}

#[test]
fn align_value_rounds_up_to_power_of_two() {
    assert_eq!(align_value(0, 12), 0);
    assert_eq!(align_value(1, 12), 4096);
    assert_eq!(align_value(4096, 12), 4096);
    assert_eq!(align_value(4097, 12), 8192);
    assert_eq!(align_value(13, 3), 16);
    assert_eq!(align_value(16, 3), 16);
}

#[test]
fn page_flags_set_and_clear() {
    assert_eq!(PageBits::Empty.val(), 0);
    assert_eq!(PageBits::Taken.val(), 1);
    assert_eq!(PageBits::Last.val(), 2);
    let mut p = Page { flags: 0 };
    assert!(p.is_free() && !p.is_taken() && !p.is_last());
    p.set_flag(PageBits::Taken);
    assert!(p.is_taken() && !p.is_last() && !p.is_free());
    p.set_flag(PageBits::Last);
    assert!(p.is_taken() && p.is_last());
    assert_eq!(p.flags, 3);
    p.clear();
    assert_eq!(p.flags, 0);
}

#[test]
fn init_places_allocation_area_past_descriptors() {
    let f = frames(16);
    assert_eq!(f.num_frames(), 16);
    assert_eq!(f.heap_start(), HEAP_START);
    assert_eq!(f.alloc_start(), HEAP_START + 4096);
    assert!(flags(&f).iter().all(|&x| x == 0));
    assert_eq!(f.free_frames(), 16);
    let g = init(HEAP_START + 5, 3 * PAGE_SIZE + 17);
    assert_eq!(g.num_frames(), 3);
    assert_eq!(g.alloc_start(), HEAP_START + 4096);
}

#[test]
fn alloc_dealloc_round_trip() {
    for n in 1..=8usize {
        let mut f = frames(8);
        let before = flags(&f);
        let a = alloc_pages(&mut f, n).unwrap();
        assert_eq!(a, f.alloc_start());
        assert_eq!(dealloc(&mut f, a), Ok(()));
        assert_eq!(flags(&f), before);
        assert_eq!(alloc_pages(&mut f, n), Some(a));
    }
}

#[test]
fn alloc_marks_run_taken_with_last_at_end() {
    let mut f = frames(8);
    let a = alloc_pages(&mut f, 2).unwrap();
    let b = alloc_pages(&mut f, 3).unwrap();
    assert_eq!(a, f.alloc_start());
    assert_eq!(b, f.alloc_start() + 2 * PAGE_SIZE);
    assert_eq!(flags(&f), vec![1, 3, 1, 1, 3, 0, 0, 0]);
    assert_eq!(dealloc(&mut f, a), Ok(()));
    // the two-frame hole is too small for three frames: first fit goes past it
    let c = alloc_pages(&mut f, 3).unwrap();
    assert_eq!(c, f.alloc_start() + 5 * PAGE_SIZE);
    let d = alloc_pages(&mut f, 2).unwrap();
    assert_eq!(d, f.alloc_start());
    assert_eq!(flags(&f), vec![1, 3, 1, 1, 3, 1, 1, 3]);
}

#[test]
fn zalloc_zeroes_every_word_of_the_run() {
    let mut f = frames(4);
    let a = alloc_pages(&mut f, 2).unwrap();
    let mut addr = a;
    while addr < a + 2 * PAGE_SIZE {
        f.write_word(addr, 0xDEAD_BEEF);
        addr += 8;
    }
    assert_eq!(dealloc(&mut f, a), Ok(()));
    let z = zalloc(&mut f, 2).unwrap();
    assert_eq!(z, a);
    let mut addr = z;
    while addr < z + 2 * PAGE_SIZE {
        assert_eq!(f.read_word(addr), 0);
        addr += 8;
    }
}

#[test]
fn exhaustion_fails_and_changes_nothing() {
    let mut f = frames(6);
    alloc_pages(&mut f, 4).unwrap();
    let before = flags(&f);
    assert_eq!(f.free_frames(), 2);
    assert_eq!(alloc_pages(&mut f, 3), None);
    assert_eq!(zalloc(&mut f, 3), None);
    assert_eq!(flags(&f), before);
    assert_eq!(alloc_pages(&mut f, 7), None);
    assert_eq!(flags(&f), before);
}

#[test]
fn dealloc_refuses_double_free_and_middle_of_run() {
    let mut f = frames(4);
    let a = alloc_pages(&mut f, 3).unwrap();
    assert_eq!(dealloc(&mut f, a + PAGE_SIZE), Err(MemoryError::DoubleFreeOrInvalidAddress));
    assert_eq!(flags(&f), vec![1, 1, 3, 0]);
    assert_eq!(dealloc(&mut f, a + 100), Err(MemoryError::DoubleFreeOrInvalidAddress));
    assert_eq!(flags(&f), vec![1, 1, 3, 0]);
    assert_eq!(dealloc(&mut f, a), Ok(()));
    assert_eq!(dealloc(&mut f, a), Err(MemoryError::DoubleFreeOrInvalidAddress));
    assert_eq!(flags(&f), vec![0, 0, 0, 0]);
}

#[test]
fn deallocate_all_pages_clears_every_run() {
    let mut f = frames(8);
    alloc_pages(&mut f, 2).unwrap();
    alloc_pages(&mut f, 1).unwrap();
    alloc_pages(&mut f, 3).unwrap();
    deallocate_all_pages(&mut f);
    assert!(flags(&f).iter().all(|&x| x == 0));
    assert_eq!(f.free_frames(), 8);
}

#[test]
fn page_allocations_lists_runs_in_order() {
    let mut f = frames(8);
    alloc_pages(&mut f, 2).unwrap();
    let b = alloc_pages(&mut f, 1).unwrap();
    alloc_pages(&mut f, 3).unwrap();
    assert_eq!(dealloc(&mut f, b), Ok(()));
    assert_eq!(f.page_allocations(), vec![(0, 2), (3, 3)]);
    assert_eq!(f.free_frames(), 3);
}

#[test]
fn releasing_three_neighbouring_runs_frees_one_stretch() {
    let mut f = frames(10);
    let a = alloc_pages(&mut f, 2).unwrap();
    let b = alloc_pages(&mut f, 1).unwrap();
    let c = alloc_pages(&mut f, 3).unwrap();
    assert_eq!(b, a + 2 * PAGE_SIZE);
    assert_eq!(c, b + PAGE_SIZE);
    assert_eq!(dealloc(&mut f, b), Ok(()));
    assert_eq!(dealloc(&mut f, a), Ok(()));
    assert_eq!(dealloc(&mut f, c), Ok(()));
    assert!(flags(&f).iter().all(|&x| x == 0));
    assert_eq!(alloc_pages(&mut f, 6), Some(a));
}
