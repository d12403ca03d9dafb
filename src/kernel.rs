//! Setting up the kernel's own address space.
use vstd::prelude::*;

use crate::malloc::{lemma_heap_kept, Block, KernelHeap, KERNEL_HEAP_PAGES};
use crate::page::{
    align_up, init, lemma_first_fit_found, FrameAllocator, FramesView, MemoryError, PAGE_SIZE,
};
use crate::table::{
    frame_untouched, identity_mapped, is_tree_frame, l1_present, map_range, others_untouched,
    page_floor, tree_wf, PageTable, PageTableEntryBits, PTE_RWX, no_superpages, range_tables,
    outside_pages, translate,
};

verus! {

/// Maps a region of the kernel image onto itself, page by page, with the
/// access bits `bits`; the same operation as `map_range`.
pub fn map_range_of_addresses(
    frames: &mut FrameAllocator,
    root: &mut PageTable,
    start: usize,
    end: usize,
    bits: i64,
) -> (r: Result<(), MemoryError>)
    requires
        old(frames).wf(),
        tree_wf(*old(root), old(frames)@),
        (bits as u64) & PTE_RWX != 0,
        0 <= bits < 0x400,
        end + PAGE_SIZE - 1 <= usize::MAX,
    ensures
        final(frames).wf(),
        tree_wf(*final(root), final(frames)@),
        others_untouched(*old(root), old(frames)@, *final(root), final(frames)@),
        r is Err ==> r == Err::<(), MemoryError>(MemoryError::OutOfMemory) || r == Err::<
            (),
            MemoryError,
        >(MemoryError::AlreadyMapped),
        no_superpages(*old(root), old(frames)@) && old(frames)@.free_count() >= range_tables(
            page_floor(start as int) as u64,
            align_up(end as int, PAGE_SIZE as int) as u64,
        ) ==> r is Ok && no_superpages(*final(root), final(frames)@),
        r is Ok && align_up(end as int, PAGE_SIZE as int) - page_floor(start as int)
            <= 0x80_0000_0000 ==> forall|v: u64|
            page_floor(start as int) <= v < align_up(end as int, PAGE_SIZE as int)
                ==> #[trigger] identity_mapped(*final(root), final(frames)@, v, bits as u64),
        forall|v: u64|
            outside_pages(v, page_floor(start as int), align_up(end as int, PAGE_SIZE as int))
                ==> #[trigger] translate(*final(root), final(frames)@, v) == translate(
                *old(root),
                old(frames)@,
                v,
            ),
{
    map_range(frames, root, start, end, bits)
}

/// The kernel's memory once it is set up: the frame allocator, the kernel
/// heap in frames of it, and the page table that maps the heap.
pub struct KernelMemory {
    pub frames: FrameAllocator,
    pub heap: KernelHeap,
    pub root: PageTable,
}

/// The words of frames `first .. first + count` are the same in `s` and `s2`.
proof fn lemma_frames_words(s: FramesView, s2: FramesView, first: int, count: int)
    requires
        0 <= first,
        forall|k: int| first <= k < first + count ==> #[trigger] frame_untouched(s, s2, k),
    ensures
        forall|w: int| first * 512 <= w < (first + count) * 512 ==> #[trigger] s2.memory[w] == s.memory[w],
{
    assert forall|w: int| first * 512 <= w < (first + count) * 512 implies #[trigger] s2.memory[w]
        == s.memory[w] by {
        let k = w / 512;
        vstd::arithmetic::div_mod::lemma_fundamental_div_mod(w, 512);
        assert(first <= k < first + count) by (nonlinear_arith)
            requires
                first * 512 <= w < (first + count) * 512,
                w == 512 * k + w % 512,
                0 <= w % 512 < 512,
        ;
        assert(frame_untouched(s, s2, k));
    }
}

/// Sets up the frame allocator over `heap_start .. heap_start + heap_size`,
/// reserves the kernel heap in it, and maps every page of the heap onto
/// itself, readable and writable, in a fresh page table. Fails with
/// `OutOfMemory` where the region cannot hold the heap and the tables.
pub fn initialize_kernel_memory(heap_start: usize, heap_size: usize) -> (r: Result<
    KernelMemory,
    MemoryError,
>)
    requires
        heap_start + heap_size / PAGE_SIZE + PAGE_SIZE - 1 <= usize::MAX,
        align_up(heap_start + heap_size / PAGE_SIZE, PAGE_SIZE as int) + (heap_size / PAGE_SIZE)
            * PAGE_SIZE <= usize::MAX,
    ensures
        r is Err ==> r == Err::<KernelMemory, MemoryError>(MemoryError::OutOfMemory) || r == Err::<
            KernelMemory,
            MemoryError,
        >(MemoryError::AlreadyMapped),
        heap_size / PAGE_SIZE < KERNEL_HEAP_PAGES ==> r is Err,
        heap_size / PAGE_SIZE >= KERNEL_HEAP_PAGES + 4 ==> r is Ok,
        r is Ok ==> {
            let m = r->Ok_0;
            &&& m.frames.wf()
            &&& m.heap.wf(&m.frames)
            &&& m.heap@.head % PAGE_SIZE as int == 0
            &&& m.heap@.blocks == seq![Block { taken: false, size: (KERNEL_HEAP_PAGES * PAGE_SIZE) as nat }]
            &&& tree_wf(m.root, m.frames@)
            &&& forall|v: u64|
                m.heap@.head <= v < m.heap@.head + m.heap@.size ==> #[trigger] identity_mapped(
                    m.root,
                    m.frames@,
                    v,
                    PageTableEntryBits::ReadWrite.spec_bits() as u64,
                )
            &&& forall|v: u64|
                outside_pages(v, m.heap@.head, m.heap@.head + m.heap@.size) ==> #[trigger] translate(
                    m.root,
                    m.frames@,
                    v,
                ) is None
        },
{
    let mut frames = init(heap_start, heap_size);
    let ghost s0 = frames@;
    let heap = match KernelHeap::init(&mut frames) {
        Some(heap) => heap,
        None => {
            proof {
                if heap_size / PAGE_SIZE >= KERNEL_HEAP_PAGES {
                    assert(crate::page::is_free_run(s0.flags, 0, KERNEL_HEAP_PAGES as int));
                }
            }
            return Err(MemoryError::OutOfMemory);
        },
    };
    proof {
        if heap_size / PAGE_SIZE < KERNEL_HEAP_PAGES {
            crate::page::lemma_exhaustion(s0, KERNEL_HEAP_PAGES as int);
            assert(crate::page::free_in(s0.flags, s0.flags.len() as int) <= s0.flags.len()) by {
                lemma_free_in_bound(s0.flags, s0.flags.len() as int);
            }
        }
    }
    let ghost s1 = frames@;
    let ghost f = s0.fit(KERNEL_HEAP_PAGES as int)->Some_0;
    let mut root = PageTable::new();
    let ghost root0 = root;
    let head = heap.head();
    let end = head + heap.pages() * PAGE_SIZE;
    proof {
        lemma_first_fit_found(s0.flags, KERNEL_HEAP_PAGES as int, 0);
        crate::page::lemma_frame_of_address(s0, f);
        vstd::arithmetic::div_mod::lemma_mod_multiples_basic(s0.alloc_start / 4096 + f, 4096);
        vstd::arithmetic::div_mod::lemma_fundamental_div_mod(s0.alloc_start, 4096);
        vstd::arithmetic::div_mod::lemma_mod_multiples_basic(s0.alloc_start / 4096 + f + 64, 4096);
        crate::table::lemma_entry_encodings_zero();
        assert forall|i: int| 0 <= i < 512 implies !#[trigger] l1_present(root0, i) by {
            assert(root0.entry(i) == 0);
        }
        assert(tree_wf(root0, s1));
        assert(no_superpages(root0, s1));
        assert forall|v: u64| #[trigger] translate(root0, s1, v) is None by {
            assert(root0.entry(crate::table::vpn(v, 2)) == 0) by {
                crate::table::lemma_vpn_bound(v);
            }
        }
        if heap_size / PAGE_SIZE >= KERNEL_HEAP_PAGES + 4 {
            assert(crate::page::is_free_run(s0.flags, 0, KERNEL_HEAP_PAGES as int));
            assert(f == 0);
            lemma_free_after_first(s1.flags, 64, s1.flags.len() as int);
            assert(s1.free_count() == s1.flags.len() - 64);
            lemma_heap_range_tables(head as u64);
        }
    }
    let bits = PageTableEntryBits::ReadWrite.as_i64();
    assert((bits as u64) & PTE_RWX != 0) by (bit_vector)
        requires
            bits == 6,
    ;
    assert(0 <= bits < 0x400);
    let mapped = map_range(&mut frames, &mut root, head, end, bits);
    match mapped {
        Err(e) => Err(e),
        Ok(()) => {
            proof {
                let s2 = frames@;
                let h = heap@;
                assert forall|k: int| f <= k < f + 64 implies #[trigger] frame_untouched(s1, s2, k) by {
                    assert(s1.flags[k] != 0);
                    assert(!is_tree_frame(root0, s1, k));
                }
                lemma_frames_words(s1, s2, f, 64);
                assert(h.head == s0.alloc_start + f * 4096);
                assert(s1.word_index(h.head) == f * 512) by {
                    assert(f * 4096 == 8 * (f * 512));
                    vstd::arithmetic::div_mod::lemma_div_multiples_vanish(f * 512, 8);
                }
                lemma_heap_kept(h, s1, s2);
                assert(page_floor(head as int) == head);
                assert(align_up(end as int, PAGE_SIZE as int) == end) by {
                    vstd::arithmetic::div_mod::lemma_div_multiples_vanish_fancy(
                        end as int / 4096,
                        4095,
                        4096,
                    );
                    vstd::arithmetic::div_mod::lemma_fundamental_div_mod(end as int, 4096);
                }
            }
            Ok(KernelMemory { frames, heap, root })
        },
    }
}

proof fn lemma_free_none_below(flags: Seq<u8>, m: int)
    requires
        0 <= m <= flags.len(),
        forall|j: int| 0 <= j < m ==> #[trigger] flags[j] != 0,
    ensures
        crate::page::free_in(flags, m) == 0,
    decreases m,
{
    if m > 0 {
        lemma_free_none_below(flags, m - 1);
    }
}

/// Descriptors taken below `c` and free from `c` on count `m - c` free frames
/// among the first `m`.
proof fn lemma_free_after_first(flags: Seq<u8>, c: int, m: int)
    requires
        0 <= c <= m <= flags.len(),
        forall|j: int| 0 <= j < c ==> #[trigger] flags[j] != 0,
        forall|j: int| c <= j < flags.len() ==> #[trigger] flags[j] == 0,
    ensures
        crate::page::free_in(flags, m) == m - c,
    decreases m,
{
    if m > c {
        lemma_free_after_first(flags, c, m - 1);
    } else {
        lemma_free_none_below(flags, m);
    }
}

/// The 256 KiB heap touches at most two 1 GiB and two 2 MiB regions.
proof fn lemma_heap_range_tables(head: u64)
    requires
        head % 4096 == 0,
        head + 0x40000 <= 0xFFFF_FFFF_FFFF_F000,
    ensures
        range_tables(head, (head + 0x40000) as u64) <= 4,
{
    assert(head + 0x40000 <= 0xFFFF_FFFF_FFFF_F000 ==> ((((head + 0x40000) as u64 - 1) as u64 >> 30u64)
        <= (head >> 30u64) + 1 && ((((head + 0x40000) as u64 - 1) as u64 >> 21u64) <= (head
        >> 21u64) + 1) && ((((head + 0x40000) as u64 - 1) as u64 >> 30u64) >= (head >> 30u64))
        && ((((head + 0x40000) as u64 - 1) as u64 >> 21u64) >= (head >> 21u64)))) by (bit_vector);
}

proof fn lemma_free_in_bound(flags: Seq<u8>, m: int)
    requires
        0 <= m <= flags.len(),
    ensures
        crate::page::free_in(flags, m) <= m,
    decreases m,
{
    if m > 0 {
        lemma_free_in_bound(flags, m - 1);
    }
}

} // verus!
