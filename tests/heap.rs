use kmem::malloc::KernelHeap;
use kmem::page::{init, FrameAllocator, MemoryError, PAGE_SIZE};

const ARENA: usize = 64 * PAGE_SIZE;

fn setup() -> (FrameAllocator, KernelHeap) {
    let mut f = init(0x8000_0000, 70 * PAGE_SIZE);
    let h = KernelHeap::init(&mut f).unwrap();
    (f, h)
}

#[test]
fn heap_init_lays_one_free_block() {
    let (f, h) = setup();
    assert_eq!(h.head(), f.alloc_start());
    assert_eq!(h.pages(), 64);
    assert_eq!(h.memory_table(&f), vec![(h.head(), ARENA, false)]);
    assert_eq!(f.free_frames(), 6);
    let mut small = init(0x8000_0000, 10 * PAGE_SIZE);
    assert!(KernelHeap::init(&mut small).is_none());
}

#[test]
fn malloc_splits_first_fit_block() {
    let (mut f, mut h) = setup();
    let head = h.head();
    assert_eq!(h.kernel_malloc(&mut f, 10), Some(head + 8));
    assert_eq!(h.memory_table(&f), vec![(head, 24, true), (head + 24, ARENA - 24, false)]);
    assert_eq!(h.kernel_malloc(&mut f, 0), Some(head + 32));
    assert_eq!(
        h.memory_table(&f),
        vec![(head, 24, true), (head + 24, 8, true), (head + 32, ARENA - 32, false)]
    );
}

#[test]
fn malloc_takes_whole_block_when_remainder_is_a_header() {
    let (mut f, mut h) = setup();
    let head = h.head();
    assert_eq!(h.kernel_malloc(&mut f, ARENA - 16), Some(head + 8));
    assert_eq!(h.memory_table(&f), vec![(head, ARENA, true)]);
}

#[test]
fn zmalloc_zero_fills_payload() {
    let (mut f, mut h) = setup();
    let a = h.kernel_malloc(&mut f, 32).unwrap();
    for k in 0..4 {
        f.write_word(a + 8 * k, 0x1234);
    }
    assert_eq!(h.kernel_free(&mut f, a), Ok(()));
    let z = h.kernel_zmalloc(&mut f, 27).unwrap();
    assert_eq!(z, a);
    for k in 0..4 {
        assert_eq!(f.read_word(z + 8 * k), 0);
    }
}

#[test]
fn freeing_three_neighbours_coalesces_them() {
    let (mut f, mut h) = setup();
    let head = h.head();
    let a = h.kernel_malloc(&mut f, 16).unwrap();
    let b = h.kernel_malloc(&mut f, 32).unwrap();
    let c = h.kernel_malloc(&mut f, 40).unwrap();
    assert_eq!(h.kernel_free(&mut f, b), Ok(()));
    assert_eq!(h.memory_table(&f).len(), 4);
    assert_eq!(h.kernel_free(&mut f, a), Ok(()));
    assert_eq!(h.memory_table(&f)[0], (head, 24 + 40, false));
    assert_eq!(h.kernel_free(&mut f, c), Ok(()));
    assert_eq!(h.memory_table(&f), vec![(head, ARENA, false)]);
}

#[test]
fn coalesce_merges_with_taken_block_after() {
    let (mut f, mut h) = setup();
    let head = h.head();
    let a = h.kernel_malloc(&mut f, 16).unwrap();
    let b = h.kernel_malloc(&mut f, 16).unwrap();
    let _c = h.kernel_malloc(&mut f, 16).unwrap();
    assert_eq!(h.kernel_free(&mut f, a), Ok(()));
    assert_eq!(h.kernel_free(&mut f, b), Ok(()));
    let t = h.memory_table(&f);
    assert_eq!(t[0], (head, 48, false));
    assert_eq!(t[1], (head + 48, 24, true));
    h.coalesce(&mut f);
    assert_eq!(h.memory_table(&f), t);
}

#[test]
fn heap_exhaustion_fails_without_change() {
    let (mut f, mut h) = setup();
    let before = h.memory_table(&f);
    assert_eq!(h.kernel_malloc(&mut f, ARENA - 7), None);
    assert_eq!(h.kernel_malloc(&mut f, usize::MAX), None);
    assert_eq!(h.memory_table(&f), before);
    assert!(h.kernel_malloc(&mut f, ARENA - 8).is_some());
    assert_eq!(h.kernel_malloc(&mut f, 0), None);
}

#[test]
fn double_free_and_bad_addresses_are_refused() {
    let (mut f, mut h) = setup();
    let a = h.kernel_malloc(&mut f, 16).unwrap();
    let _b = h.kernel_malloc(&mut f, 16).unwrap();
    assert_eq!(h.kernel_free(&mut f, a + 8), Err(MemoryError::DoubleFreeOrInvalidAddress));
    assert_eq!(h.kernel_free(&mut f, 0), Err(MemoryError::DoubleFreeOrInvalidAddress));
    assert_eq!(h.kernel_free(&mut f, a), Ok(()));
    let before = h.memory_table(&f);
    assert_eq!(h.kernel_free(&mut f, a), Err(MemoryError::DoubleFreeOrInvalidAddress));
    assert_eq!(h.memory_table(&f), before);
}

#[test]
fn kernel_memory_maps_the_heap_onto_itself() {
    let m = kmem::kernel::initialize_kernel_memory(0x8000_0000, 80 * PAGE_SIZE).unwrap();
    let head = m.heap.head();
    assert_eq!(m.heap.memory_table(&m.frames), vec![(head, ARENA, false)]);
    for page in 0..64usize {
        let v = head + page * PAGE_SIZE + 16;
        assert_eq!(kmem::table::virtual_to_physical(&m.frames, &m.root, v), Some(v));
    }
    assert_eq!(kmem::table::virtual_to_physical(&m.frames, &m.root, head + ARENA), None);
    assert!(kmem::kernel::initialize_kernel_memory(0x8000_0000, 60 * PAGE_SIZE).is_err());
}

#[test]
fn kernel_memory_with_room_for_heap_and_tables() {
    let m = kmem::kernel::initialize_kernel_memory(0x8000_0000, 68 * PAGE_SIZE).unwrap();
    let head = m.heap.head();
    assert_eq!(kmem::table::virtual_to_physical(&m.frames, &m.root, head), Some(head));
    assert_eq!(kmem::table::virtual_to_physical(&m.frames, &m.root, head - 8), None);
    assert_eq!(kmem::table::virtual_to_physical(&m.frames, &m.root, 0x1000), None);
}

#[test]
fn heap_calls_touch_only_headers_and_payload() {
    let (mut f, mut h) = setup();
    let a = h.kernel_malloc(&mut f, 8).unwrap();
    let b = h.kernel_malloc(&mut f, 8).unwrap();
    f.write_word(b, 0x55);
    assert_eq!(h.kernel_free(&mut f, a), Ok(()));
    assert_eq!(f.read_word(b), 0x55);
    assert_eq!(h.kernel_zmalloc(&mut f, 8), Some(a));
    assert_eq!(f.read_word(a), 0);
    assert_eq!(f.read_word(b), 0x55);
}
