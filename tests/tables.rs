use kmem::page::{alloc_pages, init, FrameAllocator, MemoryError, PAGE_SIZE};
use kmem::table::{
    map_range, unmap, virtual_to_physical, PageTable, PageTableEntry, PageTableEntryBits,
};
use kmem::kernel::map_range_of_addresses;

fn frames(n: usize) -> FrameAllocator {
    init(0x8000_0000, n * PAGE_SIZE)
}

const RW: i64 = 6;

#[test]
fn entry_bits_values() {
    assert_eq!(PageTableEntryBits::Empty.val(), 0);
    assert_eq!(PageTableEntryBits::Valid.val(), 1);
    assert_eq!(PageTableEntryBits::Dirty.as_usize(), 128);
    assert_eq!(PageTableEntryBits::ReadWrite.as_i64(), 6);
    assert_eq!(PageTableEntryBits::UserReadWriteExecute.val(), 30);
    assert_eq!(PageTable::len(), 512);
}

#[test]
fn entry_accessors() {
    let mut e = PageTableEntry { entry: 1 };
    assert!(e.is_valid());
    assert!(!e.is_leaf());
    e.set_entry(0x0F);
    assert!(e.is_valid() && e.is_leaf());
    assert_eq!(e.get_entry(), 0x0F);
    assert_eq!(e.get_entry_as_usize(), 0x0F);
    e.set_entry(0x08);
    assert!(!e.is_valid() && e.is_leaf());
}

#[test]
fn translation_round_trip() {
    let mut f = frames(8);
    let mut root = PageTable::new();
    let va = 0x4_0123_5678usize;
    let pa = 0x8765_4000usize;
    assert_eq!(kmem::table::map(&mut f, &mut root, va, pa, RW, 0), Ok(()));
    assert_eq!(f.free_frames(), 6);
    assert_eq!(virtual_to_physical(&f, &root, va), Some(pa | (va & 0xFFF)));
    assert_eq!(virtual_to_physical(&f, &root, va & !0xFFF), Some(pa));
    assert_eq!(virtual_to_physical(&f, &root, va + 0x1000), None);
    assert_eq!(virtual_to_physical(&f, &root, 0), None);
    // a second page under the same tables needs no new frame
    assert_eq!(kmem::table::map(&mut f, &mut root, va + 0x1000, 0x1000, RW, 0), Ok(()));
    assert_eq!(f.free_frames(), 6);
    assert_eq!(virtual_to_physical(&f, &root, va + 0x1004), Some(0x1000 | ((va + 0x1004) & 0xFFF)));
    assert_eq!(virtual_to_physical(&f, &root, va), Some(pa | (va & 0xFFF)));
}

#[test]
fn superpage_leaf_covers_two_megabytes() {
    let mut f = frames(8);
    let mut root = PageTable::new();
    let va = 0x4020_0000usize;
    let pa = 0x1_0040_0000usize;
    assert_eq!(kmem::table::map(&mut f, &mut root, va + 0x1234, pa, RW, 1), Ok(()));
    assert_eq!(f.free_frames(), 7);
    for off in [0usize, 0x1234, 0x10_0000, 0x1F_FFFF] {
        assert_eq!(virtual_to_physical(&f, &root, va + off), Some(pa | off));
    }
    assert_eq!(virtual_to_physical(&f, &root, va + 0x20_0000), None);
    assert_eq!(virtual_to_physical(&f, &root, va - 1), None);
}

#[test]
fn gigapage_leaf_at_root() {
    let mut f = frames(2);
    let mut root = PageTable::new();
    assert_eq!(kmem::table::map(&mut f, &mut root, 0x4000_0000, 0x8000_0000, 14, 2), Ok(()));
    assert_eq!(f.free_frames(), 2);
    assert_eq!(virtual_to_physical(&f, &root, 0x4123_4567), Some(0x8123_4567));
}

#[test]
fn map_refuses_leaf_in_the_way() {
    let mut f = frames(8);
    let mut root = PageTable::new();
    assert_eq!(kmem::table::map(&mut f, &mut root, 0x20_0000, 0x40_0000, RW, 1), Ok(()));
    let free = f.free_frames();
    assert_eq!(kmem::table::map(&mut f, &mut root, 0x20_1000, 0x9000, RW, 0), Err(MemoryError::AlreadyMapped));
    assert_eq!(f.free_frames(), free);
    assert_eq!(virtual_to_physical(&f, &root, 0x20_1000), Some(0x40_1000));
}

#[test]
fn map_out_of_frames_changes_no_translation() {
    let mut f = frames(2);
    alloc_pages(&mut f, 1).unwrap();
    let mut root = PageTable::new();
    assert_eq!(kmem::table::map(&mut f, &mut root, 0x5000, 0x7000, RW, 0), Err(MemoryError::OutOfMemory));
    assert_eq!(virtual_to_physical(&f, &root, 0x5000), None);
}

#[test]
fn unmap_returns_every_table_frame() {
    let mut f = frames(8);
    let mut root = PageTable::new();
    assert_eq!(kmem::table::map(&mut f, &mut root, 0x1000, 0x2000, RW, 0), Ok(()));
    assert_eq!(kmem::table::map(&mut f, &mut root, 0x4000_0000, 0x3000, RW, 0), Ok(()));
    assert_eq!(kmem::table::map(&mut f, &mut root, 0x4060_0000, 0x4000, RW, 0), Ok(()));
    assert_eq!(kmem::table::map(&mut f, &mut root, 0xC000_0000, 0x8000_0000, RW, 2), Ok(()));
    assert_eq!(f.free_frames(), 3);
    unmap(&mut f, &mut root);
    assert_eq!(f.free_frames(), 8);
    assert!(!root.entries[0].is_valid());
    assert!(!root.entries[1].is_valid());
    assert!(root.entries[3].is_valid() && root.entries[3].is_leaf());
    assert_eq!(virtual_to_physical(&f, &root, 0x1000), None);
    assert_eq!(virtual_to_physical(&f, &root, 0xC000_0010), Some(0x8000_0010));
    // the freed frames are handed out again
    assert_eq!(alloc_pages(&mut f, 8), Some(f.alloc_start()));
}

#[test]
fn map_range_maps_each_page_to_itself() {
    let mut f = frames(8);
    let mut root = PageTable::new();
    assert_eq!(map_range(&mut f, &mut root, 0x8000_0123, 0x8000_5001, RW), Ok(()));
    for page in 0..6usize {
        let v = 0x8000_0000 + page * PAGE_SIZE + 8;
        assert_eq!(virtual_to_physical(&f, &root, v), Some(v));
    }
    assert_eq!(virtual_to_physical(&f, &root, 0x8000_6000), None);
    assert_eq!(map_range_of_addresses(&mut f, &mut root, 0x9000_0000, 0x9000_0001, 2), Ok(()));
    assert_eq!(virtual_to_physical(&f, &root, 0x9000_0ABC), Some(0x9000_0ABC));
}

#[test]
fn gigapage_leaf_entry_value() {
    let mut f = frames(2);
    let mut root = PageTable::new();
    assert_eq!(kmem::table::map(&mut f, &mut root, 0x8000_0000, 0x8000_0000, 0b1110, 2), Ok(()));
    assert_eq!(root.entries[2].entry, 0x2000_000F);
    for i in 0..512 {
        if i != 2 {
            assert_eq!(root.entries[i].entry, 0);
        }
    }
    assert_eq!(f.free_frames(), 2);
}

#[test]
fn map_writes_table_entries_and_takes_one_frame_per_table() {
    let mut f = frames(4);
    let mut root = PageTable::new();
    let pa = 0x1234_5000usize;
    assert_eq!(kmem::table::map(&mut f, &mut root, 0x40_3000, pa, RW, 0), Ok(()));
    assert_eq!(f.free_frames(), 2);
    let t1 = f.alloc_start();
    let t0 = t1 + PAGE_SIZE;
    assert_eq!(root.entries[0].entry as usize, (t1 >> 2) | 1);
    assert_eq!(f.read_word(t1 + 8 * 2) as usize, (t0 >> 2) | 1);
    assert_eq!(f.read_word(t0 + 8 * 3) as usize, (pa >> 2) | 6 | 1);
    assert_eq!(f.flags(0), 3);
    assert_eq!(f.flags(1), 3);
}

#[test]
fn map_range_succeeds_with_enough_frames_and_leaves_the_rest() {
    let mut f = frames(4);
    let mut root = PageTable::new();
    // crosses a 2 MiB boundary: one level-1 table and two level-0 tables
    assert_eq!(map_range(&mut f, &mut root, 0x1F_E000, 0x20_2000, RW), Ok(()));
    assert_eq!(f.free_frames(), 1);
    for v in [0x1F_E000usize, 0x1F_F123, 0x20_0000, 0x20_1FFF] {
        assert_eq!(virtual_to_physical(&f, &root, v), Some(v));
    }
    assert_eq!(virtual_to_physical(&f, &root, 0x1F_D000), None);
    assert_eq!(virtual_to_physical(&f, &root, 0x20_2000), None);
}

#[test]
fn map_range_leaves_carry_the_given_bits() {
    let mut f = frames(4);
    let mut root = PageTable::new();
    assert_eq!(map_range(&mut f, &mut root, 0x5000, 0x7000, 2), Ok(()));
    let t1 = f.alloc_start();
    let t0 = t1 + PAGE_SIZE;
    assert_eq!(f.read_word(t0 + 8 * 5) as usize, (0x5000 >> 2) | 2 | 1);
    assert_eq!(f.read_word(t0 + 8 * 6) as usize, (0x6000 >> 2) | 2 | 1);
    assert_eq!(f.read_word(t0 + 8 * 7), 0);
    assert_eq!(f.read_word(t1 + 8), 0);
}
