//! Sv39-style page tables: a caller-owned root table of 512 entries, and the
//! tables below it kept in frames obtained from the frame allocator.
use vstd::prelude::*;

use crate::page::{
    align_value, PAGE_ORDER,
    is_run_start, lemma_first_fit_found, lemma_frame_of_address, lemma_single_frame, zalloc, FrameAllocator, FramesView, MemoryError, PAGE_SIZE, TAKEN_LAST,
    WORDS_PER_PAGE,
};

verus! {

/// Number of entries in one page table.
pub const ENTRIES_PER_TABLE: usize = 512;

/// Entry bit: the entry is valid.
pub const PTE_VALID: u64 = 1;

/// Entry bits that grant read, write or execute access; an entry with any of
/// them set is a leaf.
pub const PTE_RWX: u64 = 0xE;

/// Entry bits below the physical frame number.
pub const PTE_FLAG_BITS: u64 = 0x3FF;

/// The flag bits of a page table entry, alone and in common combinations.
#[derive(Clone, Copy)]
pub enum PageTableEntryBits {
    Empty,
    Valid,
    Read,
    Write,
    Execute,
    User,
    Global,
    Access,
    Dirty,
    ReadWrite,
    ReadExecute,
    ReadWriteExecute,
    UserReadWrite,
    UserReadExecute,
    UserReadWriteExecute,
}

impl PageTableEntryBits {
    pub open spec fn spec_bits(self) -> u8 {
        match self {
            PageTableEntryBits::Empty => 0,
            PageTableEntryBits::Valid => 1,
            PageTableEntryBits::Read => 2,
            PageTableEntryBits::Write => 4,
            PageTableEntryBits::Execute => 8,
            PageTableEntryBits::User => 16,
            PageTableEntryBits::Global => 32,
            PageTableEntryBits::Access => 64,
            PageTableEntryBits::Dirty => 128,
            PageTableEntryBits::ReadWrite => 6,
            PageTableEntryBits::ReadExecute => 10,
            PageTableEntryBits::ReadWriteExecute => 14,
            PageTableEntryBits::UserReadWrite => 22,
            PageTableEntryBits::UserReadExecute => 26,
            PageTableEntryBits::UserReadWriteExecute => 30,
        }
    }

    /// The flag bits as a byte.
    pub fn val(self) -> (r: u8)
        ensures
            r == self.spec_bits(),
    {
        match self {
            PageTableEntryBits::Empty => 0,
            PageTableEntryBits::Valid => 1,
            PageTableEntryBits::Read => 2,
            PageTableEntryBits::Write => 4,
            PageTableEntryBits::Execute => 8,
            PageTableEntryBits::User => 16,
            PageTableEntryBits::Global => 32,
            PageTableEntryBits::Access => 64,
            PageTableEntryBits::Dirty => 128,
            PageTableEntryBits::ReadWrite => 6,
            PageTableEntryBits::ReadExecute => 10,
            PageTableEntryBits::ReadWriteExecute => 14,
            PageTableEntryBits::UserReadWrite => 22,
            PageTableEntryBits::UserReadExecute => 26,
            PageTableEntryBits::UserReadWriteExecute => 30,
        }
    }

    /// The flag bits as a `usize`.
    pub fn as_usize(self) -> (r: usize)
        ensures
            r == self.spec_bits(),
    {
        self.val() as usize
    }

    /// The flag bits as an `i64`, the type of an entry.
    pub fn as_i64(self) -> (r: i64)
        ensures
            r == self.spec_bits(),
    {
        self.val() as i64
    }
}

/// One 64-bit page table entry.
#[derive(Clone, Copy)]
pub struct PageTableEntry {
    pub entry: i64,
}

impl PageTableEntry {
    /// The valid bit is set.
    pub fn is_valid(&self) -> (r: bool)
        ensures
            r == pte_valid(self.entry as u64),
    {
        (self.entry as u64) & PTE_VALID != 0
    }

    /// Any of the read, write and execute bits is set.
    pub fn is_leaf(&self) -> (r: bool)
        ensures
            r == pte_leaf(self.entry as u64),
    {
        (self.entry as u64) & PTE_RWX != 0
    }

    pub fn get_entry(&self) -> (r: i64)
        ensures
            r == self.entry,
    {
        self.entry
    }

    pub fn set_entry(&mut self, entry: i64)
        ensures
            final(self).entry == entry,
    {
        self.entry = entry;
    }

    /// The entry's bits as a `usize`.
    #[verifier::truncate]
    pub fn get_entry_as_usize(&self) -> (r: usize)
        ensures
            r == self.entry as usize,
    {
        self.entry as usize
    }
}

/// The entry is valid.
pub open spec fn pte_valid(e: u64) -> bool {
    e & PTE_VALID != 0
}

/// The entry is a leaf: it grants read, write or execute access.
pub open spec fn pte_leaf(e: u64) -> bool {
    e & PTE_RWX != 0
}

/// The entry points at a table of the next level.
pub open spec fn pte_is_table(e: u64) -> bool {
    pte_valid(e) && !pte_leaf(e)
}

/// The address of the table that a non-leaf entry points at.
pub open spec fn pte_table_address(e: u64) -> u64 {
    (e & !PTE_FLAG_BITS) << 2u64
}

/// The entry that points at the table in the frame at `address`.
pub open spec fn table_entry(address: u64) -> u64 {
    (address >> 2u64) | PTE_VALID
}

/// The leaf entry for physical address `pa` with flag bits `bits`: the three
/// physical page number fields, then the flags, with the valid bit set.
pub open spec fn leaf_entry(pa: u64, bits: u64) -> u64 {
    (((pa >> 30u64) & 0x3FF_FFFF) << 28u64) | (((pa >> 21u64) & 0x1FF) << 19u64) | (((pa
        >> 12u64) & 0x1FF) << 10u64) | bits | PTE_VALID
}

/// The bits of a virtual address that pass unchanged through a leaf found at
/// `level`.
pub open spec fn offset_mask(level: int) -> u64 {
    if level == 0 {
        0xFFF
    } else if level == 1 {
        0x1F_FFFF
    } else {
        0x3FFF_FFFF
    }
}

/// The physical address that a leaf found at `level` gives for `va`.
pub open spec fn leaf_address(e: u64, va: u64, level: int) -> u64 {
    ((e << 2u64) & !offset_mask(level)) | (va & offset_mask(level))
}

/// The 9-bit index that `va` selects in a table of `level`.
pub open spec fn vpn(va: u64, level: int) -> int {
    if level == 0 {
        ((va >> 12u64) & 0x1FF) as int
    } else if level == 1 {
        ((va >> 21u64) & 0x1FF) as int
    } else {
        ((va >> 30u64) & 0x1FF) as int
    }
}

/// A table that is read from memory fits in a frame of the allocation area.
pub open spec fn holds_table(s: FramesView, address: u64) -> bool {
    &&& s.alloc_start <= address
    &&& address + PAGE_SIZE <= s.alloc_start + s.num_frames() * PAGE_SIZE
    &&& address % PAGE_SIZE as u64 == 0
}

/// Entry `k` of the table in the frame at `address`.
pub open spec fn entry_at(s: FramesView, address: u64, k: int) -> u64 {
    s.memory[s.frame_of(address as int) * WORDS_PER_PAGE + k]
}

/// What a walk that meets entry `e` at level 0 finds for `va`.
pub open spec fn walk0(e: u64, va: u64) -> Option<u64> {
    if pte_valid(e) && pte_leaf(e) {
        Some(leaf_address(e, va, 0))
    } else {
        None
    }
}

/// What a walk that meets entry `e` at level 1 finds for `va`.
pub open spec fn walk1(s: FramesView, e: u64, va: u64) -> Option<u64> {
    if !pte_valid(e) {
        None
    } else if pte_leaf(e) {
        Some(leaf_address(e, va, 1))
    } else if !holds_table(s, pte_table_address(e)) {
        None
    } else {
        walk0(entry_at(s, pte_table_address(e), vpn(va, 0)), va)
    }
}

/// What a walk that meets entry `e` at level 2 finds for `va`.
pub open spec fn walk2(s: FramesView, e: u64, va: u64) -> Option<u64> {
    if !pte_valid(e) {
        None
    } else if pte_leaf(e) {
        Some(leaf_address(e, va, 2))
    } else if !holds_table(s, pte_table_address(e)) {
        None
    } else {
        walk1(s, entry_at(s, pte_table_address(e), vpn(va, 1)), va)
    }
}

/// The physical address that `va` translates to under `root`, or `None`
/// where the walk meets an invalid entry.
pub open spec fn translate(root: PageTable, s: FramesView, va: u64) -> Option<u64> {
    walk2(s, root.entry(vpn(va, 2)), va)
}

/// A table of 512 entries; the root of a tree is owned by its caller.
pub struct PageTable {
    pub entries: [PageTableEntry; 512],
}

impl PageTable {
    /// Entry `i`, as the word a walk reads.
    pub open spec fn entry(self, i: int) -> u64 {
        self.entries@[i].entry as u64
    }

    /// Number of entries in a table.
    pub fn len() -> (r: usize)
        ensures
            r == ENTRIES_PER_TABLE,
    {
        ENTRIES_PER_TABLE
    }

    /// A table whose entries are all zero, hence invalid.
    pub fn new() -> (r: PageTable)
        ensures
            forall|i: int| 0 <= i < 512 ==> #[trigger] r.entry(i) == 0,
    {
        let r = PageTable { entries: [PageTableEntry { entry: 0 };512] };
        assert forall|i: int| 0 <= i < 512 implies #[trigger] r.entry(i) == 0 by {
            assert(r.entries@[i].entry == 0);
        }
        r
    }
}

/// Each index a virtual address selects is below 512.
pub proof fn lemma_vpn_bound(va: u64)
    ensures
        0 <= vpn(va, 0) < 512,
        0 <= vpn(va, 1) < 512,
        0 <= vpn(va, 2) < 512,
{
    assert((va >> 12u64) & 0x1FF < 512) by (bit_vector);
    assert((va >> 21u64) & 0x1FF < 512) by (bit_vector);
    assert((va >> 30u64) & 0x1FF < 512) by (bit_vector);
}

proof fn lemma_table_address_aligned(e: u64)
    ensures
        pte_table_address(e) % 4096 == 0,
{
    assert(((e & !0x3FFu64) << 2u64) % 4096 == 0) by (bit_vector);
}

/// Reads entry `k` of the table in the frame at `address`.
fn read_entry(frames: &FrameAllocator, address: u64, k: usize) -> (r: u64)
    requires
        frames.wf(),
        holds_table(frames@, address),
        k < 512,
    ensures
        r == entry_at(frames@, address, k as int),
{
    let ghost s = frames@;
    let ghost f = s.frame_of(address as int);
    assert(address as int - s.alloc_start == f * 4096 && 0 <= f < s.num_frames()) by {
        vstd::arithmetic::div_mod::lemma_fundamental_div_mod(
            address as int - s.alloc_start,
            4096,
        );
        vstd::arithmetic::div_mod::lemma_mod_multiples_basic(s.alloc_start / 4096, 4096);
        vstd::arithmetic::div_mod::lemma_fundamental_div_mod(s.alloc_start, 4096);
        vstd::arithmetic::div_mod::lemma_fundamental_div_mod(address as int, 4096);
    }
    let a = address as usize + 8 * k;
    assert((a - s.alloc_start) / 8 == f * 512 + k) by {
        vstd::arithmetic::div_mod::lemma_div_multiples_vanish_fancy(f * 512 + k, 0, 8);
    }
    frames.read_word(a)
}

/// Translates `virtual_address` by walking the tree under `root`. A walk that
/// meets an invalid entry gives `None`; a leaf at any level gives the address
/// its frame number and the page offset make for that level.
pub fn virtual_to_physical(frames: &FrameAllocator, root: &PageTable, virtual_address: usize) -> (r:
    Option<usize>)
    requires
        frames.wf(),
    ensures
        r == match translate(*root, frames@, virtual_address as u64) {
            Some(pa) => Some(pa as usize),
            None => None,
        },
{
    let va = virtual_address as u64;
    proof {
        lemma_vpn_bound(va);
    }
    let vpn2 = ((va >> 30) & 0x1FF) as usize;
    let vpn1 = ((va >> 21) & 0x1FF) as usize;
    let vpn0 = ((va >> 12) & 0x1FF) as usize;
    let e2 = root.entries[vpn2].entry as u64;
    let r2 = walk_step(frames, e2, va, 2);
    match r2 {
        WalkStep::Done(r) => return r,
        WalkStep::Descend(t1) => {
            let e1 = read_entry(frames, t1, vpn1);
            let r1 = walk_step(frames, e1, va, 1);
            match r1 {
                WalkStep::Done(r) => return r,
                WalkStep::Descend(t0) => {
                    let e0 = read_entry(frames, t0, vpn0);
                    let r0 = walk_step(frames, e0, va, 0);
                    match r0 {
                        WalkStep::Done(r) => r,
                        WalkStep::Descend(_) => None,
                    }
                },
            }
        },
    }
}

/// What one step of a walk does with the entry it meets.
enum WalkStep {
    /// The walk ends with this result.
    Done(Option<usize>),
    /// The walk goes on in the table at this address.
    Descend(u64),
}

/// One step of a walk at `level`: an invalid entry ends it with `None`, a
/// leaf with the address it gives, and an entry pointing into the allocation
/// area sends it down.
fn walk_step(frames: &FrameAllocator, e: u64, va: u64, level: usize) -> (r: WalkStep)
    requires
        frames.wf(),
        level <= 2,
    ensures
        !pte_valid(e) ==> r == WalkStep::Done(None),
        pte_valid(e) && pte_leaf(e) ==> r == WalkStep::Done(
            Some(leaf_address(e, va, level as int) as usize),
        ),
        pte_is_table(e) && holds_table(frames@, pte_table_address(e)) && level > 0 ==> r
            == WalkStep::Descend(pte_table_address(e)),
        pte_is_table(e) && (!holds_table(frames@, pte_table_address(e)) || level == 0) ==> r
            == WalkStep::Done(None),
{
    if e & PTE_VALID == 0 {
        return WalkStep::Done(None);
    }
    if e & PTE_RWX != 0 {
        let mask: u64 = if level == 0 {
            0xFFF
        } else if level == 1 {
            0x1F_FFFF
        } else {
            0x3FFF_FFFF
        };
        return WalkStep::Done(Some((((e << 2) & !mask) | (va & mask)) as usize));
    }
    let t = (e & !PTE_FLAG_BITS) << 2;
    proof {
        lemma_table_address_aligned(e);
    }
    let start = frames.alloc_start() as u64;
    let n = frames.num_frames() as u64;
    if level == 0 || t < start || t - start >= n * (PAGE_SIZE as u64) {
        return WalkStep::Done(None);
    }
    WalkStep::Descend(t)
}

/// Root entry `i` points at a level-1 table.
pub open spec fn l1_present(root: PageTable, i: int) -> bool {
    pte_is_table(root.entry(i))
}

/// The address of the level-1 table under root entry `i`.
pub open spec fn l1_table(root: PageTable, i: int) -> u64 {
    pte_table_address(root.entry(i))
}

/// Entry `j` of the level-1 table under root entry `i` points at a level-0 table.
pub open spec fn l0_present(root: PageTable, s: FramesView, i: int, j: int) -> bool {
    l1_present(root, i) && pte_is_table(entry_at(s, l1_table(root, i), j))
}

/// The address of the level-0 table under entry `j` of the level-1 table
/// under root entry `i`.
pub open spec fn l0_table(root: PageTable, s: FramesView, i: int, j: int) -> u64 {
    pte_table_address(entry_at(s, l1_table(root, i), j))
}

/// The frame at `address` holds a table: it lies in the allocation area and
/// is a run of its own, as `zalloc(1)` hands out.
pub open spec fn table_frame_ok(s: FramesView, address: u64) -> bool {
    &&& holds_table(s, address)
    &&& s.flags[s.frame_of(address as int)] == TAKEN_LAST
    &&& is_run_start(s.flags, s.frame_of(address as int))
}

/// Every table of the tree under `root` sits in a frame of its own, obtained
/// from the frame allocator, and no frame serves as two tables.
pub open spec fn tree_wf(root: PageTable, s: FramesView) -> bool {
    &&& forall|i: int|
        0 <= i < 512 && #[trigger] l1_present(root, i) ==> table_frame_ok(s, l1_table(root, i))
    &&& forall|i: int, j: int|
        0 <= i < 512 && 0 <= j < 512 && #[trigger] l0_present(root, s, i, j) ==> table_frame_ok(
            s,
            l0_table(root, s, i, j),
        )
    &&& forall|i1: int, i2: int|
        0 <= i1 < 512 && 0 <= i2 < 512 && i1 != i2 && #[trigger] l1_present(root, i1)
            && #[trigger] l1_present(root, i2) ==> l1_table(root, i1) != l1_table(root, i2)
    &&& forall|i1: int, j1: int, i2: int, j2: int|
        0 <= i1 < 512 && 0 <= j1 < 512 && 0 <= i2 < 512 && 0 <= j2 < 512 && (i1 != i2 || j1
            != j2) && #[trigger] l0_present(root, s, i1, j1) && #[trigger] l0_present(
            root,
            s,
            i2,
            j2,
        ) ==> l0_table(root, s, i1, j1) != l0_table(root, s, i2, j2)
    &&& forall|i1: int, i2: int, j2: int|
        0 <= i1 < 512 && 0 <= i2 < 512 && 0 <= j2 < 512 && #[trigger] l1_present(root, i1)
            && #[trigger] l0_present(root, s, i2, j2) ==> l1_table(root, i1) != l0_table(
            root,
            s,
            i2,
            j2,
        )
}

/// The address is none of the tables of the tree under `root`.
pub open spec fn outside_tree(root: PageTable, s: FramesView, address: u64) -> bool {
    &&& forall|i: int| 0 <= i < 512 && #[trigger] l1_present(root, i) ==> l1_table(root, i) != address
    &&& forall|i: int, j: int|
        0 <= i < 512 && 0 <= j < 512 && #[trigger] l0_present(root, s, i, j) ==> l0_table(
            root,
            s,
            i,
            j,
        ) != address
}

/// The table at `address` is still a table in `s2`, with the entries it had in `s`.
pub open spec fn frame_kept(s: FramesView, s2: FramesView, address: u64) -> bool {
    &&& table_frame_ok(s2, address)
    &&& forall|k: int| 0 <= k < 512 ==> #[trigger] entry_at(s2, address, k) == entry_at(s, address, k)
}

/// Every table of the tree is kept from `s` to `s2`.
pub open spec fn tables_kept(root: PageTable, s: FramesView, s2: FramesView) -> bool {
    &&& s2.alloc_start == s.alloc_start
    &&& s2.flags.len() == s.flags.len()
    &&& forall|i: int|
        0 <= i < 512 && #[trigger] l1_present(root, i) ==> frame_kept(s, s2, l1_table(root, i))
    &&& forall|i: int, j: int|
        0 <= i < 512 && 0 <= j < 512 && #[trigger] l0_present(root, s, i, j) ==> frame_kept(
            s,
            s2,
            l0_table(root, s, i, j),
        )
}

/// The physical address ranges of a tree do not change when only frames
/// outside its tables change.
proof fn lemma_tables_kept(root: PageTable, s: FramesView, s2: FramesView)
    requires
        tree_wf(root, s),
        tables_kept(root, s, s2),
    ensures
        tree_wf(root, s2),
        forall|va: u64| #[trigger] translate(root, s2, va) == translate(root, s, va),
        forall|a: u64| outside_tree(root, s, a) ==> #[trigger] outside_tree(root, s2, a),
        forall|i: int, j: int|
            0 <= i < 512 && 0 <= j < 512 && l1_present(root, i) ==> #[trigger] l0_present(root, s2, i, j)
                == l0_present(root, s, i, j) && l0_table(root, s2, i, j) == l0_table(root, s, i, j),
{
    assert forall|i: int, j: int| 0 <= i < 512 && 0 <= j < 512 && l1_present(root, i) implies
        #[trigger] l0_present(root, s2, i, j) == l0_present(root, s, i, j) && l0_table(
        root,
        s2,
        i,
        j,
    ) == l0_table(root, s, i, j) by {
        assert(frame_kept(s, s2, l1_table(root, i)));
        assert(entry_at(s2, l1_table(root, i), j) == entry_at(s, l1_table(root, i), j));
    }
    assert forall|va: u64| #[trigger] translate(root, s2, va) == translate(root, s, va) by {
        lemma_vpn_bound(va);
        let i = vpn(va, 2);
        let j = vpn(va, 1);
        let k = vpn(va, 0);
        if l1_present(root, i) {
            assert(frame_kept(s, s2, l1_table(root, i)));
            assert(entry_at(s2, l1_table(root, i), j) == entry_at(s, l1_table(root, i), j));
            if l0_present(root, s, i, j) {
                assert(frame_kept(s, s2, l0_table(root, s, i, j)));
                assert(entry_at(s2, l0_table(root, s, i, j), k) == entry_at(
                    s,
                    l0_table(root, s, i, j),
                    k,
                ));
            }
        }
    }
}

/// Distinct table addresses lie in distinct frames, whose entries occupy
/// distinct words.
proof fn lemma_distinct_tables(s: FramesView, a: u64, b: u64, k1: int, k2: int)
    requires
        s.wf(),
        holds_table(s, a),
        holds_table(s, b),
        a != b,
        0 <= k1 < 512,
        0 <= k2 < 512,
    ensures
        s.frame_of(a as int) != s.frame_of(b as int),
        s.frame_of(a as int) * 512 + k1 != s.frame_of(b as int) * 512 + k2,
{
    lemma_table_frame(s, a);
    lemma_table_frame(s, b);
    let fa = s.frame_of(a as int);
    let fb = s.frame_of(b as int);
    assert(fa * 512 + k1 != fb * 512 + k2) by (nonlinear_arith)
        requires
            fa != fb,
            0 <= k1 < 512,
            0 <= k2 < 512,
    ;
}

/// A table address is the address of its frame.
proof fn lemma_table_frame(s: FramesView, a: u64)
    requires
        s.wf(),
        holds_table(s, a),
    ensures
        a == s.alloc_start + s.frame_of(a as int) * 4096,
        0 <= s.frame_of(a as int) < s.num_frames(),
        0 <= s.frame_of(a as int) * 512 && s.frame_of(a as int) * 512 + 512 <= s.memory.len(),
{
    let f = s.frame_of(a as int);
    vstd::arithmetic::div_mod::lemma_fundamental_div_mod(a as int - s.alloc_start, 4096);
    vstd::arithmetic::div_mod::lemma_fundamental_div_mod(s.alloc_start, 4096);
    vstd::arithmetic::div_mod::lemma_fundamental_div_mod(a as int, 4096);
    vstd::arithmetic::div_mod::lemma_mod_multiples_basic(s.alloc_start / 4096, 4096);
    assert(0 <= f * 512 && f * 512 + 512 <= s.memory.len()) by (nonlinear_arith)
        requires
            0 <= f < s.num_frames(),
            s.memory.len() == s.num_frames() * 512,
    ;
}

/// A frame that `zalloc(1)` hands out is no table of a well-formed tree, is
/// a table frame of its own afterwards, and holds only zero entries; the
/// tables of the tree are kept.
proof fn lemma_zalloc_table(root: PageTable, s: FramesView)
    requires
        s.wf(),
        tree_wf(root, s),
        s.fit(1) is Some,
    ensures
        ({
            let s2 = s.after_zalloc(1);
            let a = s.alloc_address(1)->Some_0 as u64;
            &&& s.alloc_address(1)->Some_0 as u64 == s.alloc_address(1)->Some_0 as int
            &&& tables_kept(root, s, s2)
            &&& outside_tree(root, s, a)
            &&& table_frame_ok(s2, a)
            &&& forall|k: int| 0 <= k < 512 ==> #[trigger] entry_at(s2, a, k) == 0
        }),
{
    let f = s.fit(1)->Some_0;
    lemma_first_fit_found(s.flags, 1, 0);
    lemma_frame_of_address(s, f);
    let s2 = s.after_zalloc(1);
    let a = s.alloc_address(1)->Some_0 as u64;
    assert(a == s.alloc_start + f * 4096);
    assert(holds_table(s, a)) by {
        vstd::arithmetic::div_mod::lemma_mod_multiples_basic(s.alloc_start / 4096, 4096);
        vstd::arithmetic::div_mod::lemma_fundamental_div_mod(s.alloc_start, 4096);
        vstd::arithmetic::div_mod::lemma_mod_multiples_basic(f, 4096);
        vstd::arithmetic::div_mod::lemma_mod_adds(s.alloc_start, f * 4096, 4096);
    }
    lemma_table_frame(s, a);
    assert(s2.flags[f] == TAKEN_LAST);
    if f > 0 && s.flags[f - 1] == crate::page::TAKEN {
        assert(s.flags[f] != 0);
    }
    assert forall|k: int| 0 <= k < 512 implies #[trigger] entry_at(s2, a, k) == 0 by {
        assert(f * 512 <= f * 512 + k < (f + 1) * 512);
    }
    assert forall|b: u64| #[trigger] table_frame_ok(s, b) implies frame_kept(s, s2, b) && b != a by {
        lemma_table_frame(s, b);
        let g = s.frame_of(b as int);
        assert(g != f);
        assert forall|k: int| 0 <= k < 512 implies #[trigger] entry_at(s2, b, k) == entry_at(
            s,
            b,
            k,
        ) by {
            assert(!(f * 512 <= g * 512 + k < (f + 1) * 512)) by (nonlinear_arith)
                requires
                    g != f,
                    0 <= k < 512,
            ;
        }
        if g > 0 && g - 1 == f {
            assert(s2.flags[g - 1] == TAKEN_LAST);
        }
    }
    assert forall|i: int| 0 <= i < 512 && #[trigger] l1_present(root, i) implies frame_kept(
        s,
        s2,
        l1_table(root, i),
    ) && l1_table(root, i) != a by {
        assert(table_frame_ok(s, l1_table(root, i)));
    }
    assert forall|i: int, j: int|
        0 <= i < 512 && 0 <= j < 512 && #[trigger] l0_present(root, s, i, j) implies frame_kept(
        s,
        s2,
        l0_table(root, s, i, j),
    ) && l0_table(root, s, i, j) != a by {
        assert(table_frame_ok(s, l0_table(root, s, i, j)));
    }
}

proof fn lemma_entry_encodings(a: u64)
    ensures
        !pte_valid(0),
        a % 4096 == 0 ==> pte_is_table(table_entry(a)) && pte_table_address(table_entry(a)) == a,
        ((table_entry(a) as i64) as u64) == table_entry(a),
{
    assert(0u64 & 1 == 0) by (bit_vector);
    assert(a % 4096 == 0 ==> ((a >> 2u64) | 1) & 1 != 0 && ((a >> 2u64) | 1) & 0xE == 0 && ((((a
        >> 2u64) | 1) & !0x3FFu64) << 2u64) == a) by (bit_vector);
    let t = table_entry(a);
    assert((t as i64) as u64 == t) by (bit_vector);
}

/// The zero entry is invalid.
pub proof fn lemma_entry_encodings_zero()
    ensures
        !pte_valid(0),
        !pte_is_table(0),
{
    lemma_entry_encodings(0);
}

proof fn lemma_leaf_encoding(pa: u64, bits: u64)
    requires
        bits & PTE_RWX != 0,
    ensures
        pte_valid(leaf_entry(pa, bits)),
        pte_leaf(leaf_entry(pa, bits)),
        ((leaf_entry(pa, bits) as i64) as u64) == leaf_entry(pa, bits),
{
    let e = leaf_entry(pa, bits);
    assert(bits & 0xE != 0 ==> (((((pa >> 30u64) & 0x3FF_FFFF) << 28u64) | (((pa >> 21u64) & 0x1FF)
        << 19u64) | (((pa >> 12u64) & 0x1FF) << 10u64) | bits | 1u64) & 1 != 0) && (((((pa
        >> 30u64) & 0x3FF_FFFF) << 28u64) | (((pa >> 21u64) & 0x1FF) << 19u64) | (((pa >> 12u64)
        & 0x1FF) << 10u64) | bits | 1u64) & 0xE != 0)) by (bit_vector);
    assert((e as i64) as u64 == e) by (bit_vector);
}

/// After one word of a table is written, every table entry reads as before
/// but the one written.
proof fn lemma_write_entry(s: FramesView, s2: FramesView, t: u64, j: int, v: u64, b: u64, k: int)
    requires
        s.wf(),
        holds_table(s, t),
        holds_table(s, b),
        0 <= j < 512,
        0 <= k < 512,
        s2 == (FramesView {
            memory: s.memory.update(s.frame_of(t as int) * 512 + j, v),
            ..s
        }),
    ensures
        entry_at(s2, b, k) == if b == t && k == j {
            v
        } else {
            entry_at(s, b, k)
        },
{
    lemma_table_frame(s, t);
    lemma_table_frame(s, b);
    if b != t {
        lemma_distinct_tables(s, t, b, j, k);
    }
}

/// Hooking a fresh, zeroed table frame under an invalid root entry keeps the
/// tree well formed and changes no translation.
proof fn lemma_install_root_table(root: PageTable, root2: PageTable, s: FramesView, i: int, a: u64)
    requires
        s.wf(),
        tree_wf(root, s),
        0 <= i < 512,
        !pte_valid(root.entry(i)),
        table_frame_ok(s, a),
        outside_tree(root, s, a),
        forall|k: int| 0 <= k < 512 ==> #[trigger] entry_at(s, a, k) == 0,
        forall|n: int|
            0 <= n < 512 ==> #[trigger] root2.entry(n) == if n == i {
                table_entry(a)
            } else {
                root.entry(n)
            },
    ensures
        tree_wf(root2, s),
        forall|va: u64| #[trigger] translate(root2, s, va) == translate(root, s, va),
        forall|n: int|
            0 <= n < 512 && #[trigger] l1_present(root2, n) ==> (n == i && l1_table(root2, n) == a) || (
            l1_present(root, n) && l1_table(root2, n) == l1_table(root, n)),
        forall|n: int, m: int|
            0 <= n < 512 && 0 <= m < 512 && #[trigger] l0_present(root2, s, n, m) ==> l0_present(root, s, n, m)
                && l0_table(root2, s, n, m) == l0_table(root, s, n, m),
{
    lemma_entry_encodings(a);
    assert(l1_present(root2, i) && l1_table(root2, i) == a);
    assert forall|j: int| 0 <= j < 512 implies !#[trigger] l0_present(root2, s, i, j) by {
        assert(entry_at(s, a, j) == 0);
    }
    assert forall|n: int, j: int| 0 <= n < 512 && 0 <= j < 512 && n != i implies (#[trigger] l0_present(
        root2,
        s,
        n,
        j,
    ) == l0_present(root, s, n, j)) && l0_table(root2, s, n, j) == l0_table(root, s, n, j) by {
        assert(root2.entry(n) == root.entry(n));
    }
    assert forall|n: int| 0 <= n < 512 && n != i implies #[trigger] l1_present(root2, n) == l1_present(
        root,
        n,
    ) && l1_table(root2, n) == l1_table(root, n) by {
        assert(root2.entry(n) == root.entry(n));
    }
    assert(tree_wf(root2, s));
    assert forall|va: u64| #[trigger] translate(root2, s, va) == translate(root, s, va) by {
        lemma_vpn_bound(va);
        if vpn(va, 2) == i {
            assert(entry_at(s, a, vpn(va, 1)) == 0);
        } else {
            assert(root2.entry(vpn(va, 2)) == root.entry(vpn(va, 2)));
        }
    }
}

/// Hooking a fresh, zeroed table frame under an invalid entry of a level-1
/// table keeps the tree well formed and changes no translation.
proof fn lemma_install_inner_table(
    root: PageTable,
    s: FramesView,
    s2: FramesView,
    i: int,
    j: int,
    a: u64,
)
    requires
        s.wf(),
        tree_wf(root, s),
        0 <= i < 512,
        0 <= j < 512,
        l1_present(root, i),
        !pte_valid(entry_at(s, l1_table(root, i), j)),
        table_frame_ok(s, a),
        outside_tree(root, s, a),
        forall|k: int| 0 <= k < 512 ==> #[trigger] entry_at(s, a, k) == 0,
        s2 == (FramesView {
            memory: s.memory.update(s.frame_of(l1_table(root, i) as int) * 512 + j, table_entry(a)),
            ..s
        }),
    ensures
        s2.wf(),
        tree_wf(root, s2),
        forall|va: u64| #[trigger] translate(root, s2, va) == translate(root, s, va),
        forall|n: int, m: int|
            0 <= n < 512 && 0 <= m < 512 && #[trigger] l0_present(root, s2, n, m) ==> (n == i && m == j
                && l0_table(root, s2, n, m) == a) || (l0_present(root, s, n, m) && l0_table(root, s2, n, m)
                == l0_table(root, s, n, m)),
{
    let t = l1_table(root, i);
    assert(table_frame_ok(s, t));
    lemma_table_frame(s, t);
    lemma_entry_encodings(a);
    assert forall|b: u64, k: int| holds_table(s, b) && 0 <= k < 512 implies #[trigger] entry_at(
        s2,
        b,
        k,
    ) == if b == t && k == j {
        table_entry(a)
    } else {
        entry_at(s, b, k)
    } by {
        lemma_write_entry(s, s2, t, j, table_entry(a), b, k);
    }
    assert forall|n: int, m: int| 0 <= n < 512 && 0 <= m < 512 && l1_present(root, n) implies (
    #[trigger] l0_present(root, s2, n, m) == (l0_present(root, s, n, m) || (n == i && m == j)))
        && l0_table(root, s2, n, m) == if n == i && m == j {
        a
    } else {
        l0_table(root, s, n, m)
    } by {
        assert(table_frame_ok(s, l1_table(root, n)));
        if n != i {
            assert(l1_table(root, n) != t);
        }
    }
    assert forall|n: int, m: int| 0 <= n < 512 && 0 <= m < 512 && #[trigger] l0_present(root, s2, n, m)
        implies table_frame_ok(s2, l0_table(root, s2, n, m)) by {
        if !(n == i && m == j) {
            assert(l0_present(root, s, n, m));
        }
    }
    assert forall|i1: int, j1: int, i2: int, j2: int|
        0 <= i1 < 512 && 0 <= j1 < 512 && 0 <= i2 < 512 && 0 <= j2 < 512 && (i1 != i2 || j1 != j2)
            && #[trigger] l0_present(root, s2, i1, j1) && #[trigger] l0_present(root, s2, i2, j2)
        implies l0_table(root, s2, i1, j1) != l0_table(root, s2, i2, j2) by {
        if i1 == i && j1 == j {
            assert(l0_present(root, s, i2, j2));
        } else if i2 == i && j2 == j {
            assert(l0_present(root, s, i1, j1));
        } else {
            assert(l0_present(root, s, i1, j1));
            assert(l0_present(root, s, i2, j2));
        }
    }
    assert forall|i1: int, i2: int, j2: int|
        0 <= i1 < 512 && 0 <= i2 < 512 && 0 <= j2 < 512 && #[trigger] l1_present(root, i1)
            && #[trigger] l0_present(root, s2, i2, j2) implies l1_table(root, i1) != l0_table(
        root,
        s2,
        i2,
        j2,
    ) by {
        if !(i2 == i && j2 == j) {
            assert(l0_present(root, s, i2, j2));
        }
    }
    assert(tree_wf(root, s2));
    assert forall|va: u64| #[trigger] translate(root, s2, va) == translate(root, s, va) by {
        lemma_vpn_bound(va);
        let n = vpn(va, 2);
        let m = vpn(va, 1);
        if l1_present(root, n) {
            assert(table_frame_ok(s, l1_table(root, n)));
            if l0_present(root, s2, n, m) {
                let c = l0_table(root, s2, n, m);
                assert(table_frame_ok(s2, c));
                assert(entry_at(s2, c, vpn(va, 0)) == entry_at(s, c, vpn(va, 0)));
                if n == i && m == j {
                    assert(entry_at(s, a, vpn(va, 0)) == 0);
                }
            }
        }
    }
}

/// Writing a leaf into a root entry keeps the tree well formed and changes
/// the translation of exactly the addresses that select that entry.
proof fn lemma_root_leaf(root: PageTable, root2: PageTable, s: FramesView, i: int, leaf: u64)
    requires
        s.wf(),
        tree_wf(root, s),
        0 <= i < 512,
        pte_valid(leaf) && pte_leaf(leaf),
        forall|n: int|
            0 <= n < 512 ==> #[trigger] root2.entry(n) == if n == i {
                leaf
            } else {
                root.entry(n)
            },
    ensures
        tree_wf(root2, s),
        forall|va: u64| #[trigger]
            translate(root2, s, va) == if vpn(va, 2) == i {
                Some(leaf_address(leaf, va, 2))
            } else {
                translate(root, s, va)
            },
        forall|n: int|
            0 <= n < 512 && #[trigger] l1_present(root2, n) ==> l1_present(root, n) && l1_table(root2, n)
                == l1_table(root, n),
        forall|n: int, m: int|
            0 <= n < 512 && 0 <= m < 512 && #[trigger] l0_present(root2, s, n, m) ==> l0_present(root, s, n, m)
                && l0_table(root2, s, n, m) == l0_table(root, s, n, m),
{
    assert forall|n: int| 0 <= n < 512 && n != i implies #[trigger] l1_present(root2, n) == l1_present(
        root,
        n,
    ) && l1_table(root2, n) == l1_table(root, n) by {
        assert(root2.entry(n) == root.entry(n));
    }
    assert forall|n: int, j: int| 0 <= n < 512 && 0 <= j < 512 && n != i implies (#[trigger] l0_present(
        root2,
        s,
        n,
        j,
    ) == l0_present(root, s, n, j)) && l0_table(root2, s, n, j) == l0_table(root, s, n, j) by {
        assert(root2.entry(n) == root.entry(n));
    }
    assert(!l1_present(root2, i));
    assert(tree_wf(root2, s));
    assert forall|va: u64| #[trigger]
        translate(root2, s, va) == if vpn(va, 2) == i {
            Some(leaf_address(leaf, va, 2))
        } else {
            translate(root, s, va)
        } by {
        lemma_vpn_bound(va);
        assert(root2.entry(vpn(va, 2)) == if vpn(va, 2) == i {
            leaf
        } else {
            root.entry(vpn(va, 2))
        });
    }
}

/// Writing a leaf into entry `j` of the level-1 table under root entry `i`
/// keeps the tree well formed and changes the translation of exactly the
/// addresses that select that entry.
proof fn lemma_inner_leaf(root: PageTable, s: FramesView, s2: FramesView, i: int, j: int, leaf: u64)
    requires
        s.wf(),
        tree_wf(root, s),
        0 <= i < 512,
        0 <= j < 512,
        l1_present(root, i),
        pte_valid(leaf) && pte_leaf(leaf),
        s2 == (FramesView {
            memory: s.memory.update(s.frame_of(l1_table(root, i) as int) * 512 + j, leaf),
            ..s
        }),
    ensures
        s2.wf(),
        tree_wf(root, s2),
        forall|va: u64| #[trigger]
            translate(root, s2, va) == if vpn(va, 2) == i && vpn(va, 1) == j {
                Some(leaf_address(leaf, va, 1))
            } else {
                translate(root, s, va)
            },
        forall|n: int, m: int|
            0 <= n < 512 && 0 <= m < 512 && #[trigger] l0_present(root, s2, n, m) ==> l0_present(root, s, n, m)
                && l0_table(root, s2, n, m) == l0_table(root, s, n, m),
{
    let t = l1_table(root, i);
    assert(table_frame_ok(s, t));
    lemma_table_frame(s, t);
    assert forall|b: u64, k: int| holds_table(s, b) && 0 <= k < 512 implies #[trigger] entry_at(
        s2,
        b,
        k,
    ) == if b == t && k == j {
        leaf
    } else {
        entry_at(s, b, k)
    } by {
        lemma_write_entry(s, s2, t, j, leaf, b, k);
    }
    assert forall|n: int, m: int| 0 <= n < 512 && 0 <= m < 512 && l1_present(root, n) implies (
    #[trigger] l0_present(root, s2, n, m) == (l0_present(root, s, n, m) && !(n == i && m == j)))
        && (!(n == i && m == j) ==> l0_table(root, s2, n, m) == l0_table(root, s, n, m)) by {
        assert(table_frame_ok(s, l1_table(root, n)));
        if n != i {
            assert(l1_table(root, n) != t);
        }
    }
    assert forall|n: int, m: int| 0 <= n < 512 && 0 <= m < 512 && #[trigger] l0_present(root, s2, n, m)
        implies table_frame_ok(s2, l0_table(root, s2, n, m)) by {
        assert(l0_present(root, s, n, m));
    }
    assert forall|i1: int, j1: int, i2: int, j2: int|
        0 <= i1 < 512 && 0 <= j1 < 512 && 0 <= i2 < 512 && 0 <= j2 < 512 && (i1 != i2 || j1 != j2)
            && #[trigger] l0_present(root, s2, i1, j1) && #[trigger] l0_present(root, s2, i2, j2)
        implies l0_table(root, s2, i1, j1) != l0_table(root, s2, i2, j2) by {
        assert(l0_present(root, s, i1, j1));
        assert(l0_present(root, s, i2, j2));
    }
    assert forall|i1: int, i2: int, j2: int|
        0 <= i1 < 512 && 0 <= i2 < 512 && 0 <= j2 < 512 && #[trigger] l1_present(root, i1)
            && #[trigger] l0_present(root, s2, i2, j2) implies l1_table(root, i1) != l0_table(
        root,
        s2,
        i2,
        j2,
    ) by {
        assert(l0_present(root, s, i2, j2));
    }
    assert(tree_wf(root, s2));
    assert forall|va: u64| #[trigger]
        translate(root, s2, va) == if vpn(va, 2) == i && vpn(va, 1) == j {
            Some(leaf_address(leaf, va, 1))
        } else {
            translate(root, s, va)
        } by {
        lemma_vpn_bound(va);
        let n = vpn(va, 2);
        let m = vpn(va, 1);
        if l1_present(root, n) {
            assert(table_frame_ok(s, l1_table(root, n)));
            if l0_present(root, s2, n, m) {
                let c = l0_table(root, s2, n, m);
                assert(table_frame_ok(s2, c));
                assert(entry_at(s2, c, vpn(va, 0)) == entry_at(s, c, vpn(va, 0)));
            }
        }
    }
}

/// Writing a leaf into entry `k` of a level-0 table keeps the tree well
/// formed and changes the translation of exactly the addresses that select
/// that entry.
proof fn lemma_bottom_leaf(
    root: PageTable,
    s: FramesView,
    s2: FramesView,
    i: int,
    j: int,
    k: int,
    leaf: u64,
)
    requires
        s.wf(),
        tree_wf(root, s),
        0 <= i < 512,
        0 <= j < 512,
        0 <= k < 512,
        l0_present(root, s, i, j),
        pte_valid(leaf) && pte_leaf(leaf),
        s2 == (FramesView {
            memory: s.memory.update(s.frame_of(l0_table(root, s, i, j) as int) * 512 + k, leaf),
            ..s
        }),
    ensures
        s2.wf(),
        tree_wf(root, s2),
        forall|va: u64| #[trigger]
            translate(root, s2, va) == if vpn(va, 2) == i && vpn(va, 1) == j && vpn(va, 0) == k {
                Some(leaf_address(leaf, va, 0))
            } else {
                translate(root, s, va)
            },
        forall|n: int, m: int|
            0 <= n < 512 && 0 <= m < 512 && #[trigger] l0_present(root, s2, n, m) ==> l0_present(root, s, n, m)
                && l0_table(root, s2, n, m) == l0_table(root, s, n, m),
{
    let t = l0_table(root, s, i, j);
    assert(table_frame_ok(s, t));
    lemma_table_frame(s, t);
    assert forall|b: u64, n: int| holds_table(s, b) && 0 <= n < 512 implies #[trigger] entry_at(
        s2,
        b,
        n,
    ) == if b == t && n == k {
        leaf
    } else {
        entry_at(s, b, n)
    } by {
        lemma_write_entry(s, s2, t, k, leaf, b, n);
    }
    assert forall|n: int, m: int| 0 <= n < 512 && 0 <= m < 512 && l1_present(root, n) implies (
    #[trigger] l0_present(root, s2, n, m) == l0_present(root, s, n, m)) && l0_table(root, s2, n, m)
        == l0_table(root, s, n, m) by {
        assert(table_frame_ok(s, l1_table(root, n)));
        assert(l1_table(root, n) != t);
    }
    assert(tree_wf(root, s2));
    assert forall|va: u64| #[trigger]
        translate(root, s2, va) == if vpn(va, 2) == i && vpn(va, 1) == j && vpn(va, 0) == k {
            Some(leaf_address(leaf, va, 0))
        } else {
            translate(root, s, va)
        } by {
        lemma_vpn_bound(va);
        let n = vpn(va, 2);
        let m = vpn(va, 1);
        if l1_present(root, n) {
            assert(table_frame_ok(s, l1_table(root, n)));
            assert(l1_table(root, n) != t);
            if l0_present(root, s, n, m) {
                let c = l0_table(root, s, n, m);
                assert(table_frame_ok(s, c));
            }
        }
    }
}

/// Writes `value` into entry `k` of the table in the frame at `address`.
fn write_entry(frames: &mut FrameAllocator, address: u64, k: usize, value: u64)
    requires
        old(frames).wf(),
        holds_table(old(frames)@, address),
        k < 512,
    ensures
        final(frames)@ == (FramesView {
            memory: old(frames)@.memory.update(
                old(frames)@.frame_of(address as int) * 512 + k,
                value,
            ),
            ..old(frames)@
        }),
        final(frames).wf(),
{
    let ghost s = frames@;
    proof {
        lemma_table_frame(s, address);
    }
    let ghost f = s.frame_of(address as int);
    let a = address as usize + 8 * k;
    assert((a - s.alloc_start) / 8 == f * 512 + k) by {
        vstd::arithmetic::div_mod::lemma_div_multiples_vanish_fancy(f * 512 + k, 0, 8);
    }
    frames.write_word(a, value);
}

/// How many table frames mapping `va` with its leaf at `level` must obtain,
/// or `None` when a leaf above that level already covers `va`.
pub open spec fn tables_needed(root: PageTable, s: FramesView, va: u64, level: int) -> Option<nat> {
    let e2 = root.entry(vpn(va, 2));
    if level >= 2 {
        Some(0)
    } else if !pte_valid(e2) {
        Some((2 - level) as nat)
    } else if pte_leaf(e2) {
        None
    } else if level == 1 {
        Some(0)
    } else {
        let e1 = entry_at(s, l1_table(root, vpn(va, 2)), vpn(va, 1));
        if !pte_valid(e1) {
            Some(1)
        } else if pte_leaf(e1) {
            None
        } else {
            Some(0)
        }
    }
}

/// `a` and `b` select the same entries from the root down to `level`, so a
/// leaf at `level` translates both.
pub open spec fn same_region(a: u64, b: u64, level: int) -> bool {
    &&& vpn(a, 2) == vpn(b, 2)
    &&& (level <= 1 ==> vpn(a, 1) == vpn(b, 1))
    &&& (level <= 0 ==> vpn(a, 0) == vpn(b, 0))
}

/// The level at which `map` places its leaf: the one asked for, at most the root's.
pub open spec fn leaf_level(level: usize) -> int {
    if level > 2 {
        2
    } else {
        level as int
    }
}

/// What `map` leaves behind on success: every address of the region of `va`
/// at `level` translates through the new leaf, and every other address as before.
pub open spec fn mapped(
    root: PageTable,
    s: FramesView,
    root2: PageTable,
    s2: FramesView,
    va: u64,
    pa: u64,
    bits: u64,
    level: int,
) -> bool {
    forall|v: u64| #[trigger]
        translate(root2, s2, v) == if same_region(v, va, level) {
            Some(leaf_address(leaf_entry(pa, bits), v, level))
        } else {
            translate(root, s, v)
        }
}

/// The entry that the walk for `va` meets at `level`.
pub open spec fn walk_entry(root: PageTable, s: FramesView, va: u64, level: int) -> u64 {
    let e2 = root.entry(vpn(va, 2));
    let e1 = entry_at(s, pte_table_address(e2), vpn(va, 1));
    if level >= 2 {
        e2
    } else if level == 1 {
        e1
    } else {
        entry_at(s, pte_table_address(e1), vpn(va, 0))
    }
}

/// The entries that `map` leaves on the walk for `va`: the leaf at `level`,
/// and above it tables, each either the one that was there or a fresh
/// frame that was free.
pub open spec fn map_entries(
    root: PageTable,
    s: FramesView,
    root2: PageTable,
    s2: FramesView,
    va: u64,
    pa: u64,
    bits: u64,
    level: int,
) -> bool {
    let e2 = walk_entry(root2, s2, va, 2);
    let e1 = walk_entry(root2, s2, va, 1);
    &&& walk_entry(root2, s2, va, level) == leaf_entry(pa, bits)
    &&& level < 2 ==> {
        &&& pte_is_table(e2)
        &&& pte_valid(walk_entry(root, s, va, 2)) ==> e2 == walk_entry(root, s, va, 2)
        &&& !pte_valid(walk_entry(root, s, va, 2)) ==> e2 == table_entry(pte_table_address(e2))
            && s.flags[s.frame_of(pte_table_address(e2) as int)] == 0
    }
    &&& level < 2 && !pte_valid(walk_entry(root, s, va, 2)) ==> forall|k: int|
        0 <= k < 512 && k != vpn(va, 1) ==> #[trigger] entry_at(s2, pte_table_address(e2), k) == 0
    &&& level < 1 && !(pte_valid(walk_entry(root, s, va, 2)) && pte_valid(walk_entry(root, s, va, 1)))
        ==> forall|k: int|
        0 <= k < 512 && k != vpn(va, 0) ==> #[trigger] entry_at(s2, pte_table_address(e1), k) == 0
    &&& level < 1 ==> {
        &&& pte_is_table(e1)
        &&& pte_valid(walk_entry(root, s, va, 2)) && pte_valid(walk_entry(root, s, va, 1)) ==> e1
            == walk_entry(root, s, va, 1)
        &&& !(pte_valid(walk_entry(root, s, va, 2)) && pte_valid(walk_entry(root, s, va, 1))) ==> e1
            == table_entry(pte_table_address(e1)) && s.flags[s.frame_of(pte_table_address(e1) as int)]
            == 0
    }
}

/// `s2` has taken exactly `n` frames that were free in `s`, each as a run
/// of its own, and changed no other descriptor.
pub open spec fn took_frames(s: FramesView, s2: FramesView, n: nat) -> bool {
    &&& s2.flags.len() == s.flags.len()
    &&& s2.free_count() == s.free_count() - n
    &&& forall|k: int|
        0 <= k < s.flags.len() && #[trigger] s2.flags[k] != s.flags[k] ==> s.flags[k] == 0
            && s2.flags[k] == TAKEN_LAST
}

/// No walk in the tree meets a leaf above level 0.
pub open spec fn no_superpages(root: PageTable, s: FramesView) -> bool {
    &&& forall|i: int| 0 <= i < 512 ==> !(pte_valid(#[trigger] root.entry(i)) && pte_leaf(root.entry(i)))
    &&& forall|i: int, j: int|
        0 <= i < 512 && 0 <= j < 512 && l1_present(root, i) ==> !(pte_valid(
            #[trigger] entry_at(s, l1_table(root, i), j),
        ) && pte_leaf(entry_at(s, l1_table(root, i), j)))
}

proof fn lemma_took_trans(a: FramesView, b: FramesView, c: FramesView, n1: nat, n2: nat)
    requires
        took_frames(a, b, n1),
        took_frames(b, c, n2),
        b.free_count() >= n2,
        a.free_count() >= n1,
    ensures
        took_frames(a, c, n1 + n2),
{
    assert forall|k: int| 0 <= k < a.flags.len() && #[trigger] c.flags[k] != a.flags[k] implies a.flags[k]
        == 0 && c.flags[k] == TAKEN_LAST by {
        if b.flags[k] != a.flags[k] {
            assert(b.flags[k] == TAKEN_LAST);
        }
    }
}

/// What `zalloc(1)` does to the descriptors.
proof fn lemma_zalloc_took(s: FramesView)
    requires
        s.wf(),
        s.fit(1) is Some,
    ensures
        took_frames(s, s.after_zalloc(1), 1),
        s.after_zalloc(1).flags[s.fit(1)->Some_0] == TAKEN_LAST,
        s.flags[s.fit(1)->Some_0] == 0,
{
    lemma_single_frame(s);
    lemma_first_fit_found(s.flags, 1, 0);
}

/// A word written in the table at `t` keeps the tree free of superpages
/// when it is no leaf, or when `t` is no level-1 table.
proof fn lemma_no_superpages_write(root: PageTable, s: FramesView, s2: FramesView, t: u64, k: int, v: u64)
    requires
        s.wf(),
        tree_wf(root, s),
        no_superpages(root, s),
        holds_table(s, t),
        0 <= k < 512,
        s2 == (FramesView { memory: s.memory.update(s.frame_of(t as int) * 512 + k, v), ..s }),
        !(pte_valid(v) && pte_leaf(v)) || forall|n: int|
            0 <= n < 512 && #[trigger] l1_present(root, n) ==> l1_table(root, n) != t,
    ensures
        no_superpages(root, s2),
{
    assert forall|i: int, j: int| 0 <= i < 512 && 0 <= j < 512 && l1_present(root, i) implies !(pte_valid(
        #[trigger] entry_at(s2, l1_table(root, i), j),
    ) && pte_leaf(entry_at(s2, l1_table(root, i), j))) by {
        assert(table_frame_ok(s, l1_table(root, i)));
        lemma_write_entry(s, s2, t, k, v, l1_table(root, i), j);
    }
}

/// The walk for `v` meets the same entries at every level in both trees.
pub open spec fn walk_kept(root: PageTable, s: FramesView, root2: PageTable, s2: FramesView, v: u64) -> bool {
    &&& walk_entry(root2, s2, v, 2) == walk_entry(root, s, v, 2)
    &&& walk_entry(root2, s2, v, 1) == walk_entry(root, s, v, 1)
    &&& walk_entry(root2, s2, v, 0) == walk_entry(root, s, v, 0)
}

/// The walk for `v` finds tables at levels 2 and 1.
pub open spec fn walk_has_tables(root: PageTable, s: FramesView, v: u64) -> bool {
    pte_is_table(walk_entry(root, s, v, 2)) && pte_is_table(walk_entry(root, s, v, 1))
}

/// The tables on a walk that finds tables at levels 2 and 1 are tables of the tree.
proof fn lemma_walk_tables(root: PageTable, s: FramesView, v: u64)
    requires
        tree_wf(root, s),
        walk_has_tables(root, s, v),
    ensures
        l1_present(root, vpn(v, 2)),
        l0_present(root, s, vpn(v, 2), vpn(v, 1)),
        table_frame_ok(s, l1_table(root, vpn(v, 2))),
        table_frame_ok(s, l0_table(root, s, vpn(v, 2), vpn(v, 1))),
        l1_table(root, vpn(v, 2)) != l0_table(root, s, vpn(v, 2), vpn(v, 1)),
{
    lemma_vpn_bound(v);
    assert(l1_present(root, vpn(v, 2)));
    assert(l0_present(root, s, vpn(v, 2), vpn(v, 1)));
}

/// A word written off the walk of `v` leaves that walk as it was.
proof fn lemma_walk_kept_write(root: PageTable, s: FramesView, s2: FramesView, t: u64, j: int, x: u64, v: u64)
    requires
        s.wf(),
        tree_wf(root, s),
        walk_has_tables(root, s, v),
        holds_table(s, t),
        0 <= j < 512,
        s2 == (FramesView { memory: s.memory.update(s.frame_of(t as int) * 512 + j, x), ..s }),
        !(t == l1_table(root, vpn(v, 2)) && j == vpn(v, 1)),
        !(t == l0_table(root, s, vpn(v, 2), vpn(v, 1)) && j == vpn(v, 0)),
    ensures
        walk_kept(root, s, root, s2, v),
{
    lemma_walk_tables(root, s, v);
    lemma_vpn_bound(v);
    lemma_write_entry(s, s2, t, j, x, l1_table(root, vpn(v, 2)), vpn(v, 1));
    lemma_write_entry(s, s2, t, j, x, l0_table(root, s, vpn(v, 2), vpn(v, 1)), vpn(v, 0));
}

/// `zalloc(1)` leaves every walk that finds tables as it was.
proof fn lemma_walk_kept_zalloc(root: PageTable, s: FramesView, v: u64)
    requires
        s.wf(),
        tree_wf(root, s),
        s.fit(1) is Some,
        walk_has_tables(root, s, v),
    ensures
        walk_kept(root, s, root, s.after_zalloc(1), v),
{
    lemma_walk_tables(root, s, v);
    lemma_vpn_bound(v);
    lemma_zalloc_table(root, s);
    let s2 = s.after_zalloc(1);
    assert(frame_kept(s, s2, l1_table(root, vpn(v, 2))));
    assert(frame_kept(s, s2, l0_table(root, s, vpn(v, 2), vpn(v, 1))));
}

/// `zalloc(1)` keeps the tree free of superpages.
proof fn lemma_no_superpages_zalloc(root: PageTable, s: FramesView)
    requires
        s.wf(),
        tree_wf(root, s),
        no_superpages(root, s),
        s.fit(1) is Some,
    ensures
        no_superpages(root, s.after_zalloc(1)),
{
    let s1 = s.after_zalloc(1);
    lemma_zalloc_table(root, s);
    assert forall|i: int, j: int| 0 <= i < 512 && 0 <= j < 512 && l1_present(root, i) implies !(pte_valid(
        #[trigger] entry_at(s1, l1_table(root, i), j),
    ) && pte_leaf(entry_at(s1, l1_table(root, i), j))) by {
        assert(frame_kept(s, s1, l1_table(root, i)));
    }
}

/// Hooking a fresh, zeroed table under an invalid root entry keeps the tree
/// free of superpages.
proof fn lemma_no_superpages_root_table(root: PageTable, root2: PageTable, s: FramesView, i: int, a: u64)
    requires
        s.wf(),
        tree_wf(root, s),
        no_superpages(root, s),
        0 <= i < 512,
        !pte_valid(root.entry(i)),
        table_frame_ok(s, a),
        outside_tree(root, s, a),
        forall|k: int| 0 <= k < 512 ==> #[trigger] entry_at(s, a, k) == 0,
        forall|n: int|
            0 <= n < 512 ==> #[trigger] root2.entry(n) == if n == i {
                table_entry(a)
            } else {
                root.entry(n)
            },
    ensures
        no_superpages(root2, s),
{
    lemma_entry_encodings(a);
    lemma_install_root_table(root, root2, s, i, a);
    assert forall|n: int| 0 <= n < 512 implies !(pte_valid(#[trigger] root2.entry(n)) && pte_leaf(
        root2.entry(n),
    )) by {
        if n != i {
            assert(!(pte_valid(root.entry(n)) && pte_leaf(root.entry(n))));
        }
    }
    assert forall|n: int, j: int| 0 <= n < 512 && 0 <= j < 512 && l1_present(root2, n) implies !(pte_valid(
        #[trigger] entry_at(s, l1_table(root2, n), j),
    ) && pte_leaf(entry_at(s, l1_table(root2, n), j))) by {
        if n == i {
            assert(entry_at(s, a, j) == 0);
        } else {
            assert(root2.entry(n) == root.entry(n));
        }
    }
}

/// Maps the page of `virtual_address` to `physical_address` with the access
/// bits `bits`, placing the leaf at `level` (0 for a 4 KiB page, 1 for a
/// 2 MiB superpage, 2 for a 1 GiB one). Missing tables on the way down are
/// obtained as zeroed frames from `frames`. Fails with `AlreadyMapped`,
/// changing nothing, where a leaf above `level` is in the way, and with
/// `OutOfMemory`, changing no translation, where too few frames are free.
#[verifier::rlimit(100)]
#[verifier::spinoff_prover]
pub fn map(
    frames: &mut FrameAllocator,
    root: &mut PageTable,
    virtual_address: usize,
    physical_address: usize,
    bits: i64,
    level: usize,
) -> (r: Result<(), MemoryError>)
    requires
        old(frames).wf(),
        tree_wf(*old(root), old(frames)@),
        (bits as u64) & PTE_RWX != 0,
        0 <= bits < 0x400,
    ensures
        final(frames).wf(),
        tree_wf(*final(root), final(frames)@),
        others_untouched(*old(root), old(frames)@, *final(root), final(frames)@),
        forall|n: int|
            0 <= n < 512 && n != vpn(virtual_address as u64, 2) ==> #[trigger] final(root).entry(n)
                == old(root).entry(n),
        ({
            let va = virtual_address as u64;
            let lvl = leaf_level(level);
            match tables_needed(*old(root), old(frames)@, va, lvl) {
                None => r == Err::<(), MemoryError>(MemoryError::AlreadyMapped) && *final(root)
                    == *old(root) && final(frames)@ == old(frames)@,
                Some(n) => if old(frames)@.free_count() < n {
                    &&& r == Err::<(), MemoryError>(MemoryError::OutOfMemory)
                    &&& forall|v: u64| #[trigger]
                        translate(*final(root), final(frames)@, v) == translate(
                            *old(root),
                            old(frames)@,
                            v,
                        )
                } else {
                    &&& r is Ok
                    &&& mapped(
                        *old(root),
                        old(frames)@,
                        *final(root),
                        final(frames)@,
                        va,
                        physical_address as u64,
                        bits as u64,
                        lvl,
                    )
                    &&& map_entries(
                        *old(root),
                        old(frames)@,
                        *final(root),
                        final(frames)@,
                        va,
                        physical_address as u64,
                        bits as u64,
                        lvl,
                    )
                    &&& took_frames(old(frames)@, final(frames)@, n)
                    &&& (lvl == 0 ==> forall|v: u64|
                        walk_has_tables(*old(root), old(frames)@, v) && !same_region(v, va, 0)
                            ==> #[trigger] walk_kept(*old(root), old(frames)@, *final(root), final(frames)@, v))
                    &&& (lvl == 0 && no_superpages(*old(root), old(frames)@) ==> no_superpages(
                        *final(root),
                        final(frames)@,
                    ))
                },
            }
        }),
{
    let ghost s0 = frames@;
    let ghost root0 = *root;
    let va = virtual_address as u64;
    let pa = physical_address as u64;
    let b = bits as u64;
    let lvl: usize = if level > 2 {
        2
    } else {
        level
    };
    proof {
        lemma_vpn_bound(va);
        lemma_leaf_encoding(pa, b);
        lemma_entry_encodings(0);
    }
    let vpn2 = ((va >> 30) & 0x1FF) as usize;
    let vpn1 = ((va >> 21) & 0x1FF) as usize;
    let vpn0 = ((va >> 12) & 0x1FF) as usize;
    let leaf: u64 = (((pa >> 30) & 0x3FF_FFFF) << 28) | (((pa >> 21) & 0x1FF) << 19) | (((pa >> 12)
        & 0x1FF) << 10) | b | PTE_VALID;
    proof {
        lemma_untouched_refl(root0, s0);
    }
    assert(leaf == leaf_entry(pa, b));
    if lvl == 2 {
        let ghost r1 = *root;
        root.entries[vpn2] = PageTableEntry { entry: leaf as i64 };
        proof {
            lemma_root_leaf(r1, *root, frames@, vpn2 as int, leaf);
            lemma_untouched_root_leaf(r1, *root, frames@, vpn2 as int, leaf);
            assert(walk_entry(*root, frames@, va, 2) == leaf);
        }
        return Ok(());
    }
    let e2 = root.entries[vpn2].entry as u64;
    let t1: u64;
    let ghost mut n1: nat = 0;
    if e2 & PTE_VALID == 0 {
        let ghost s1 = frames@;
        proof {
            lemma_single_frame(s1);
            if s1.fit(1) is Some {
                lemma_zalloc_table(*root, s1);
            }
        }
        match zalloc(frames, 1) {
            None => {
                return Err(MemoryError::OutOfMemory);
            },
            Some(f) => {
                proof {
                    lemma_tables_kept(*root, s1, frames@);
                    lemma_entry_encodings(f as u64);
                }
                let ghost r1 = *root;
                proof {
                    lemma_zalloc_took(s1);
                    lemma_zalloc_untouched(s1);
                    if no_superpages(r1, s1) {
                        lemma_no_superpages_zalloc(r1, s1);
                    }
                }
                root.entries[vpn2] = PageTableEntry { entry: (((f as u64) >> 2) | PTE_VALID) as i64 };
                proof {
                    lemma_install_root_table(r1, *root, frames@, vpn2 as int, f as u64);
                    lemma_untouched_root_table(r1, *root, s1, vpn2 as int);
                    if no_superpages(r1, s1) {
                        lemma_no_superpages_root_table(r1, *root, frames@, vpn2 as int, f as u64);
                    }
                    n1 = 1;
                    assert forall|v: u64| walk_has_tables(root0, s0, v) implies #[trigger] walk_kept(
                        root0,
                        s0,
                        *root,
                        frames@,
                        v,
                    ) by {
                        lemma_vpn_bound(v);
                        lemma_walk_kept_zalloc(r1, s1, v);
                        assert(vpn(v, 2) != vpn2);
                        assert(root.entry(vpn(v, 2)) == r1.entry(vpn(v, 2)));
                    }
                }
                t1 = f as u64;
            },
        }
    } else if e2 & PTE_RWX != 0 {
        return Err(MemoryError::AlreadyMapped);
    } else {
        t1 = (e2 & !PTE_FLAG_BITS) << 2;
    }
    assert(l1_present(*root, vpn2 as int) && l1_table(*root, vpn2 as int) == t1);
    assert(table_frame_ok(frames@, t1));
    assert(others_untouched(root0, s0, *root, frames@));
    let ghost sm = frames@;
    let ghost rm = *root;
    assert(took_frames(s0, sm, n1));
    assert(tables_needed(root0, s0, va, lvl as int) == Some((n1 + (1 - lvl)) as nat) || n1 == 0);
    assert(walk_entry(rm, sm, va, 2) == table_entry(t1) || walk_entry(rm, sm, va, 2) == e2);
    assert(pte_table_address(walk_entry(rm, sm, va, 2)) == t1);
    assert(n1 == 1 ==> s0.flags[s0.frame_of(t1 as int)] == 0 && !pte_valid(walk_entry(root0, s0, va, 2))
        && walk_entry(rm, sm, va, 2) == table_entry(t1));
    assert(n1 == 0 ==> pte_valid(walk_entry(root0, s0, va, 2)) && walk_entry(rm, sm, va, 2)
        == walk_entry(root0, s0, va, 2) && sm == s0);
    assert(forall|v: u64| walk_has_tables(root0, s0, v) ==> #[trigger] walk_kept(root0, s0, rm, sm, v));
    if lvl == 1 {
        let ghost s1 = frames@;
        write_entry(frames, t1, vpn1, leaf);
        proof {
            lemma_inner_leaf(*root, s1, frames@, vpn2 as int, vpn1 as int, leaf);
            lemma_untouched_inner_leaf(*root, s1, frames@, vpn2 as int, vpn1 as int, leaf);
            lemma_untouched_trans(root0, s0, *root, s1, *root, frames@);
            lemma_write_entry(s1, frames@, t1, vpn1 as int, leaf, t1, vpn1 as int);
            assert(walk_entry(*root, frames@, va, 1) == leaf);
            assert(took_frames(s1, frames@, 0));
            lemma_took_trans(s0, s1, frames@, n1, 0);
        }
        return Ok(());
    }
    let e1 = read_entry(frames, t1, vpn1);
    let t0: u64;
    let ghost mut n2: nat = 0;
    if e1 & PTE_VALID == 0 {
        let ghost s1 = frames@;
        proof {
            lemma_single_frame(s1);
            if s1.fit(1) is Some {
                lemma_zalloc_table(*root, s1);
            }
        }
        match zalloc(frames, 1) {
            None => {
                return Err(MemoryError::OutOfMemory);
            },
            Some(f) => {
                let ghost s2 = frames@;
                proof {
                    lemma_tables_kept(*root, s1, s2);
                    lemma_entry_encodings(f as u64);
                    assert(entry_at(s2, t1, vpn1 as int) == entry_at(s1, t1, vpn1 as int));
                }
                proof {
                    lemma_zalloc_took(s1);
                    lemma_zalloc_untouched(s1);
                    if no_superpages(*root, s1) {
                        lemma_no_superpages_zalloc(*root, s1);
                    }
                }
                write_entry(frames, t1, vpn1, ((f as u64) >> 2) | PTE_VALID);
                proof {
                    lemma_install_inner_table(
                        *root,
                        s2,
                        frames@,
                        vpn2 as int,
                        vpn1 as int,
                        f as u64,
                    );
                    lemma_untouched_inner_table(*root, s1, frames@, vpn2 as int, vpn1 as int);
                    lemma_untouched_trans(root0, s0, *root, s1, *root, frames@);
                    if no_superpages(*root, s1) {
                        lemma_no_superpages_write(*root, s2, frames@, t1, vpn1 as int, table_entry(f as u64));
                    }
                    lemma_write_entry(s2, frames@, t1, vpn1 as int, table_entry(f as u64), t1, vpn1 as int);
                    assert(took_frames(s2, frames@, 0));
                    lemma_took_trans(s1, s2, frames@, 1, 0);
                    n2 = 1;
                    assert forall|v: u64| walk_has_tables(rm, sm, v) implies #[trigger] walk_kept(
                        rm,
                        sm,
                        *root,
                        frames@,
                        v,
                    ) by {
                        lemma_vpn_bound(v);
                        lemma_walk_kept_zalloc(rm, sm, v);
                        lemma_walk_tables(rm, s2, v);
                        assert(l1_present(rm, vpn2 as int));
                        assert(entry_at(s2, t1, vpn1 as int) == entry_at(sm, t1, vpn1 as int));
                        lemma_walk_kept_write(rm, s2, frames@, t1, vpn1 as int, table_entry(f as u64), v);
                    }
                }
                t0 = f as u64;
            },
        }
    } else if e1 & PTE_RWX != 0 {
        return Err(MemoryError::AlreadyMapped);
    } else {
        t0 = (e1 & !PTE_FLAG_BITS) << 2;
    }
    assert(l0_present(*root, frames@, vpn2 as int, vpn1 as int));
    assert(l0_table(*root, frames@, vpn2 as int, vpn1 as int) == t0);
    assert(table_frame_ok(frames@, t0));
    let ghost s1 = frames@;
    assert(took_frames(sm, s1, n2));
    assert(n2 == 1 ==> sm.flags[sm.frame_of(t0 as int)] == 0 && !pte_valid(entry_at(sm, t1, vpn1 as int))
        && entry_at(s1, t1, vpn1 as int) == table_entry(t0));
    assert(n2 == 0 ==> pte_valid(entry_at(sm, t1, vpn1 as int)) && entry_at(s1, t1, vpn1 as int)
        == entry_at(sm, t1, vpn1 as int) && s1 == sm);
    assert(*root == rm);
    assert(forall|v: u64| walk_has_tables(rm, sm, v) ==> #[trigger] walk_kept(rm, sm, rm, s1, v));
    assert(l1_table(*root, vpn2 as int) != t0);
    write_entry(frames, t0, vpn0, leaf);
    proof {
        lemma_bottom_leaf(*root, s1, frames@, vpn2 as int, vpn1 as int, vpn0 as int, leaf);
        lemma_untouched_bottom_leaf(*root, s1, frames@, vpn2 as int, vpn1 as int, vpn0 as int, leaf);
        lemma_untouched_trans(root0, s0, *root, s1, *root, frames@);
        if no_superpages(*root, s1) {
            lemma_no_superpages_write(*root, s1, frames@, t0, vpn0 as int, leaf);
        }
        lemma_write_entry(s1, frames@, t0, vpn0 as int, leaf, t1, vpn1 as int);
        lemma_write_entry(s1, frames@, t0, vpn0 as int, leaf, t0, vpn0 as int);
        assert(took_frames(s1, frames@, 0));
        lemma_took_trans(sm, s1, frames@, n2, 0);
        lemma_took_trans(s0, sm, frames@, n1, n2);
        if n1 == 1 {
            assert(n2 == 1);
            assert(s0.flags[s0.frame_of(t0 as int)] == 0);
        }
        assert forall|v: u64| walk_has_tables(root0, s0, v) && !same_region(v, va, 0) implies #[trigger] walk_kept(
            root0,
            s0,
            *root,
            frames@,
            v,
        ) by {
            lemma_vpn_bound(v);
            assert(walk_kept(root0, s0, rm, sm, v));
            assert(walk_kept(rm, sm, rm, s1, v));
            lemma_walk_tables(rm, s1, v);
            assert(l0_present(rm, s1, vpn2 as int, vpn1 as int));
            lemma_walk_kept_write(rm, s1, frames@, t0, vpn0 as int, leaf, v);
        }
    }
    Ok(())
}

/// After `map` places a 4 KiB leaf for `va`, `va` translates to the frame
/// given with its own page offset, for a frame-aligned physical address that
/// fits the 56 bits of an entry and flag bits below the frame number.
pub proof fn lemma_translate_round_trip(
    root: PageTable,
    s: FramesView,
    root2: PageTable,
    s2: FramesView,
    va: u64,
    pa: u64,
    bits: u64,
)
    requires
        mapped(root, s, root2, s2, va, pa, bits, 0),
        pa % 4096 == 0,
        pa < 0x100_0000_0000_0000,
        bits < 1024,
    ensures
        translate(root2, s2, va) == Some(pa | (va & 0xFFF)),
{
    assert(translate(root2, s2, va) == Some(leaf_address(leaf_entry(pa, bits), va, 0)));
    assert(pa % 4096 == 0 && pa < 0x100_0000_0000_0000 && bits < 1024 ==> ((((((pa >> 30u64)
        & 0x3FF_FFFF) << 28u64) | (((pa >> 21u64) & 0x1FF) << 19u64) | (((pa >> 12u64) & 0x1FF)
        << 10u64) | bits | 1u64) << 2u64) & !0xFFFu64) | (va & 0xFFF) == pa | (va & 0xFFF))
        by (bit_vector);
}

/// After `map` places a leaf for `va` at level 1, every address of the 2 MiB
/// region around `va` translates into the 2 MiB-aligned frame given, with its
/// offset within the region kept.
pub proof fn lemma_superpage_leaf(
    root: PageTable,
    s: FramesView,
    root2: PageTable,
    s2: FramesView,
    va: u64,
    pa: u64,
    bits: u64,
)
    requires
        mapped(root, s, root2, s2, va, pa, bits, 1),
        pa % 0x20_0000 == 0,
        pa < 0x100_0000_0000_0000,
        bits < 1024,
    ensures
        forall|v: u64|
            same_region(v, va, 1) ==> #[trigger] translate(root2, s2, v) == Some(
                pa | (v & 0x1F_FFFF),
            ),
{
    assert forall|v: u64| same_region(v, va, 1) implies #[trigger] translate(root2, s2, v) == Some(
        pa | (v & 0x1F_FFFF),
    ) by {
        assert(translate(root2, s2, v) == Some(leaf_address(leaf_entry(pa, bits), v, 1)));
        assert(pa % 0x20_0000 == 0 && pa < 0x100_0000_0000_0000 && bits < 1024 ==> ((((((pa
            >> 30u64) & 0x3FF_FFFF) << 28u64) | (((pa >> 21u64) & 0x1FF) << 19u64) | (((pa
            >> 12u64) & 0x1FF) << 10u64) | bits | 1u64) << 2u64) & !0x1F_FFFFu64) | (v & 0x1F_FFFF)
            == pa | (v & 0x1F_FFFF)) by (bit_vector);
    }
}

/// Frame `k` holds a table of the tree under `root` that a sweep over root
/// entries below `i`, and over entries below `j` of the table under root
/// entry `i`, has reached.
pub open spec fn reached_frame(root: PageTable, s: FramesView, k: int, i: int, j: int) -> bool {
    ||| exists|n: int|
        0 <= n < i && #[trigger] l1_present(root, n) && s.frame_of(l1_table(root, n) as int) == k
    ||| exists|n: int, m: int|
        0 <= n < 512 && 0 <= m < 512 && (n < i || (n == i && m < j)) && #[trigger] l0_present(
            root,
            s,
            n,
            m,
        ) && s.frame_of(l0_table(root, s, n, m) as int) == k
}

/// Frame `k` holds a table of the tree under `root`, other than the root.
pub open spec fn is_tree_frame(root: PageTable, s: FramesView, k: int) -> bool {
    reached_frame(root, s, k, 512, 0)
}

/// A run of one frame is released by clearing its descriptor alone.
proof fn lemma_release_single(flags: Seq<u8>, f: int)
    requires
        0 <= f < flags.len(),
        flags[f] == TAKEN_LAST,
    ensures
        crate::page::released(flags, f) == flags.update(f, 0),
{
    assert(crate::page::run_end(flags, f) == f);
    assert(crate::page::released(flags, f) =~= flags.update(f, 0));
}

/// Releases the frame of a table reached by the sweep of `unmap`.
fn release_table(
    frames: &mut FrameAllocator,
    address: u64,
    s0: Ghost<FramesView>,
    freed: Ghost<Set<int>>,
) -> (r: Ghost<Set<int>>)
    requires
        old(frames).wf(),
        s0@.wf(),
        table_frame_ok(s0@, address),
        old(frames)@.alloc_start == s0@.alloc_start,
        old(frames)@.memory == s0@.memory,
        old(frames)@.flags.len() == s0@.flags.len(),
        !freed@.contains(s0@.frame_of(address as int)),
        forall|k: int|
            0 <= k < s0@.num_frames() ==> #[trigger] old(frames)@.flags[k] == if freed@.contains(
                k,
            ) {
                0
            } else {
                s0@.flags[k]
            },
    ensures
        final(frames).wf(),
        final(frames)@.alloc_start == s0@.alloc_start,
        final(frames)@.heap_start == old(frames)@.heap_start,
        final(frames)@.memory == s0@.memory,
        final(frames)@.flags.len() == s0@.flags.len(),
        r@ == freed@.insert(s0@.frame_of(address as int)),
        forall|k: int|
            0 <= k < s0@.num_frames() ==> #[trigger] final(frames)@.flags[k] == if r@.contains(k) {
                0
            } else {
                s0@.flags[k]
            },
{
    let ghost s = frames@;
    let ghost f = s0@.frame_of(address as int);
    proof {
        lemma_table_frame(s0@, address);
        assert(s.flags[f] == TAKEN_LAST);
        if f > 0 {
            assert(s.flags[f - 1] == 0 || s.flags[f - 1] == s0@.flags[f - 1]);
        }
        lemma_release_single(s.flags, f);
    }
    let _ = crate::page::dealloc(frames, address as usize);
    Ghost(freed@.insert(f))
}

/// Distinct table addresses have distinct frames.
proof fn lemma_frames_injective(s: FramesView)
    requires
        s.wf(),
    ensures
        forall|a: u64, b: u64|
            holds_table(s, a) && holds_table(s, b) && #[trigger] s.frame_of(a as int)
                == #[trigger] s.frame_of(b as int) ==> a == b,
{
    assert forall|a: u64, b: u64|
        holds_table(s, a) && holds_table(s, b) && #[trigger] s.frame_of(a as int)
            == #[trigger] s.frame_of(b as int) implies a == b by {
        lemma_table_frame(s, a);
        lemma_table_frame(s, b);
    }
}

/// Tears down the tree under `root`: every table below the root is returned
/// to the frame allocator exactly once, and every root entry that pointed at
/// a table is cleared to invalid. Leaf entries of the root stay; the root
/// itself belongs to the caller and is not freed.
pub fn unmap(frames: &mut FrameAllocator, root: &mut PageTable)
    requires
        old(frames).wf(),
        tree_wf(*old(root), old(frames)@),
    ensures
        final(frames).wf(),
        tree_wf(*final(root), final(frames)@),
        forall|i: int|
            0 <= i < 512 ==> #[trigger] final(root).entry(i) == if l1_present(*old(root), i) {
                0
            } else {
                old(root).entry(i)
            },
        final(frames)@ == (FramesView {
            flags: Seq::new(
                old(frames)@.flags.len(),
                |k: int|
                    if is_tree_frame(*old(root), old(frames)@, k) {
                        0
                    } else {
                        old(frames)@.flags[k]
                    },
            ),
            ..old(frames)@
        }),
{
    let ghost s0 = frames@;
    let ghost root0 = *root;
    let ghost mut freed: Set<int> = Set::empty();
    proof {
        lemma_frames_injective(s0);
        lemma_entry_encodings(0);
    }
    let mut i: usize = 0;
    while i < 512
        invariant
            0 <= i <= 512,
            frames.wf(),
            s0.wf(),
            tree_wf(root0, s0),
            frames@.alloc_start == s0.alloc_start,
            frames@.heap_start == s0.heap_start,
            frames@.memory == s0.memory,
            frames@.flags.len() == s0.flags.len(),
            forall|a: u64, b: u64|
                holds_table(s0, a) && holds_table(s0, b) && #[trigger] s0.frame_of(a as int)
                    == #[trigger] s0.frame_of(b as int) ==> a == b,
            forall|k: int|
                0 <= k < s0.num_frames() ==> #[trigger] frames@.flags[k] == if freed.contains(k) {
                    0
                } else {
                    s0.flags[k]
                },
            forall|k: int| #[trigger] freed.contains(k) <==> reached_frame(root0, s0, k, i as int, 0),
            forall|n: int|
                0 <= n < 512 ==> #[trigger] root.entry(n) == if n < i && l1_present(root0, n) {
                    0
                } else {
                    root0.entry(n)
                },
        decreases 512 - i,
    {
        let e2 = root.entries[i].entry as u64;
        assert(root.entry(i as int) == root0.entry(i as int));
        assert(e2 == root0.entry(i as int));
        if e2 & PTE_VALID != 0 && e2 & PTE_RWX == 0 {
            let t1 = (e2 & !PTE_FLAG_BITS) << 2;
            assert(l1_present(root0, i as int) && t1 == l1_table(root0, i as int));
            assert(table_frame_ok(s0, t1));
            let mut j: usize = 0;
            assert forall|k: int| #[trigger] freed.contains(k) <==> reached_frame(
                root0,
                s0,
                k,
                i as int,
                j as int,
            ) by {
                if reached_frame(root0, s0, k, i as int, j as int) {
                    assert(reached_frame(root0, s0, k, i as int, 0));
                }
            }
            while j < 512
                invariant
                    0 <= i < 512,
                    0 <= j <= 512,
                    frames.wf(),
                    s0.wf(),
                    tree_wf(root0, s0),
                    l1_present(root0, i as int),
                    t1 == l1_table(root0, i as int),
                    table_frame_ok(s0, t1),
                    frames@.alloc_start == s0.alloc_start,
                    frames@.heap_start == s0.heap_start,
                    frames@.memory == s0.memory,
                    frames@.flags.len() == s0.flags.len(),
                    forall|a: u64, b: u64|
                        holds_table(s0, a) && holds_table(s0, b) && #[trigger] s0.frame_of(a as int)
                            == #[trigger] s0.frame_of(b as int) ==> a == b,
                    forall|k: int|
                        0 <= k < s0.num_frames() ==> #[trigger] frames@.flags[k] == if freed.contains(
                            k,
                        ) {
                            0
                        } else {
                            s0.flags[k]
                        },
                    forall|k: int| #[trigger]
                        freed.contains(k) <==> reached_frame(root0, s0, k, i as int, j as int),
                decreases 512 - j,
            {
                let e1 = read_entry(frames, t1, j);
                assert(e1 == entry_at(s0, t1, j as int));
                if e1 & PTE_VALID != 0 && e1 & PTE_RWX == 0 {
                    let t0 = (e1 & !PTE_FLAG_BITS) << 2;
                    assert(l0_present(root0, s0, i as int, j as int));
                    assert(t0 == l0_table(root0, s0, i as int, j as int));
                    assert(table_frame_ok(s0, t0));
                    let ghost k0 = s0.frame_of(t0 as int);
                    assert(!freed.contains(k0));
                    let ghost old_freed = freed;
                    let g = release_table(frames, t0, Ghost(s0), Ghost(freed));
                    proof {
                        freed = g@;
                    }
                    assert forall|k: int| #[trigger]
                        freed.contains(k) <==> reached_frame(
                            root0,
                            s0,
                            k,
                            i as int,
                            j as int + 1,
                        ) by {
                        if k == k0 {
                            assert(reached_frame(root0, s0, k, i as int, j as int + 1));
                        }
                        if reached_frame(root0, s0, k, i as int, j as int + 1) && k != k0 {
                            assert(reached_frame(root0, s0, k, i as int, j as int));
                        }
                    }
                } else {
                    assert(!l0_present(root0, s0, i as int, j as int));
                    assert forall|k: int| #[trigger]
                        freed.contains(k) <==> reached_frame(
                            root0,
                            s0,
                            k,
                            i as int,
                            j as int + 1,
                        ) by {
                        if reached_frame(root0, s0, k, i as int, j as int + 1) {
                            assert(reached_frame(root0, s0, k, i as int, j as int));
                        }
                    }
                }
                j = j + 1;
            }
            let ghost k1 = s0.frame_of(t1 as int);
            assert(!freed.contains(k1));
            let g = release_table(frames, t1, Ghost(s0), Ghost(freed));
            proof {
                freed = g@;
            }
            assert forall|k: int| #[trigger]
                freed.contains(k) <==> reached_frame(root0, s0, k, i as int + 1, 0) by {
                if k == k1 {
                    assert(reached_frame(root0, s0, k, i as int + 1, 0));
                }
                if reached_frame(root0, s0, k, i as int + 1, 0) && k != k1 {
                    assert(reached_frame(root0, s0, k, i as int, 512));
                }
            }
            let ghost prev = *root;
            root.entries[i] = PageTableEntry { entry: 0 };
            assert forall|n: int| 0 <= n < 512 implies #[trigger] root.entry(n) == if n < i + 1
                && l1_present(root0, n) {
                0
            } else {
                root0.entry(n)
            } by {
                if n != i {
                    assert(root.entries@[n] == prev.entries@[n]);
                    assert(root.entry(n) == prev.entry(n));
                }
            }
        } else {
            assert(!l1_present(root0, i as int));
            assert forall|k: int| #[trigger]
                freed.contains(k) <==> reached_frame(root0, s0, k, i as int + 1, 0) by {
                if reached_frame(root0, s0, k, i as int + 1, 0) {
                    assert(reached_frame(root0, s0, k, i as int, 0));
                }
            }
        }
        i = i + 1;
    }
    assert(frames@.flags =~= Seq::new(
        s0.flags.len(),
        |k: int|
            if is_tree_frame(root0, s0, k) {
                0
            } else {
                s0.flags[k]
            },
    ));
    assert forall|n: int| 0 <= n < 512 implies !#[trigger] l1_present(*root, n) by {}
}

/// `v` translates to itself through a 4 KiB leaf with flag bits `bits`: the
/// walk finds tables at levels 2 and 1 and that leaf at level 0.
pub open spec fn identity_mapped(root: PageTable, s: FramesView, v: u64, bits: u64) -> bool {
    &&& translate(root, s, v) == Some(leaf_address(leaf_entry(v & !0xFFFu64, bits), v, 0))
    &&& identity_leaf(root, s, v, bits)
}

/// The walk for `v` finds tables at levels 2 and 1 and, at level 0, the
/// leaf that maps the page of `v` onto itself with flag bits `bits`.
pub open spec fn identity_leaf(root: PageTable, s: FramesView, v: u64, bits: u64) -> bool {
    &&& pte_is_table(walk_entry(root, s, v, 2))
    &&& pte_is_table(walk_entry(root, s, v, 1))
    &&& walk_entry(root, s, v, 0) == leaf_entry(v & !0xFFFu64, bits)
}

/// The first address of the page holding `address`.
pub open spec fn page_floor(address: int) -> int {
    address - address % PAGE_SIZE as int
}

/// Two addresses in distinct pages less than 2^39 bytes apart select
/// distinct leaf entries.
proof fn lemma_distinct_pages(v: u64, p: u64)
    requires
        p % 4096 == 0,
        v < p,
        p - v <= 0x7F_FFFF_F000,
    ensures
        !same_region(v, p, 0),
{
    assert(p % 4096 == 0 ==> p & 0xFFF == 0) by (bit_vector);
    assert(p & 0xFFF == 0 && v < p && p - v <= 0x7F_FFFF_F000 ==> (v >> 12u64) < (p >> 12u64) && (p
        >> 12u64) - (v >> 12u64) < 0x800_0000) by (bit_vector);
    let a = v >> 12u64;
    let b = p >> 12u64;
    assert(a < b && b - a < 0x800_0000 ==> a & 0x7FF_FFFF != b & 0x7FF_FFFF) by (bit_vector);
    assert((((v >> 12u64) & 0x1FF) == ((p >> 12u64) & 0x1FF) && ((v >> 21u64) & 0x1FF) == ((p
        >> 21u64) & 0x1FF) && ((v >> 30u64) & 0x1FF) == ((p >> 30u64) & 0x1FF)) ==> (v >> 12u64)
        & 0x7FF_FFFF == (p >> 12u64) & 0x7FF_FFFF) by (bit_vector);
}

/// At most how many tables mapping the pages of `lo .. hi` at level 0 takes:
/// one level-1 table for each 1 GiB region and one level-0 table for each
/// 2 MiB region that the range touches.
pub open spec fn range_tables(lo: u64, hi: u64) -> int {
    if hi <= lo {
        0
    } else {
        ((((hi - 1) as u64) >> 30u64) - (lo >> 30u64) + 1) + ((((hi - 1) as u64) >> 21u64) - (lo
            >> 21u64) + 1)
    }
}

/// How many of the two tables above level 0 the walk for `va` already finds.
pub open spec fn tables_on_walk(root: PageTable, s: FramesView, va: u64) -> int {
    (if pte_is_table(walk_entry(root, s, va, 2)) {
        1int
    } else {
        0int
    }) + (if pte_is_table(walk_entry(root, s, va, 2)) && pte_is_table(walk_entry(root, s, va, 1)) {
        1int
    } else {
        0int
    })
}

/// `v` selects no leaf entry that a page of `lo .. hi` selects.
pub open spec fn outside_pages(v: u64, lo: int, hi: int) -> bool {
    forall|p: u64| lo <= p < hi ==> !#[trigger] same_region(v, p, 0)
}

proof fn lemma_needed_on_walk(root: PageTable, s: FramesView, va: u64)
    requires
        no_superpages(root, s),
    ensures
        tables_needed(root, s, va, 0) == Some((2 - tables_on_walk(root, s, va)) as nat),
{
    lemma_vpn_bound(va);
    let i = vpn(va, 2);
    assert(!(pte_valid(root.entry(i)) && pte_leaf(root.entry(i))));
    if l1_present(root, i) {
        assert(!(pte_valid(entry_at(s, l1_table(root, i), vpn(va, 1))) && pte_leaf(
            entry_at(s, l1_table(root, i), vpn(va, 1)),
        )));
    }
}

proof fn lemma_next_page(c: u64, hi: u64)
    requires
        c % 4096 == 0,
        c < hi,
        hi <= 0xFFFF_FFFF_FFFF_F000,
    ensures
        ((hi - 1) as u64 >> 30u64) >= (c >> 30u64),
        ((hi - 1) as u64 >> 21u64) >= (c >> 21u64),
        ((c + 4096) as u64 >> 30u64) == (c >> 30u64) || ((c + 4096) as u64 >> 30u64) == (c >> 30u64) + 1,
        ((c + 4096) as u64 >> 21u64) == (c >> 21u64) || ((c + 4096) as u64 >> 21u64) == (c >> 21u64) + 1,
        ((c + 4096) as u64 >> 30u64) != (c >> 30u64) ==> ((c + 4096) as u64 >> 21u64) != (c >> 21u64),
        ((c + 4096) as u64 >> 30u64) == (c >> 30u64) ==> vpn((c + 4096) as u64, 2) == vpn(c, 2),
        ((c + 4096) as u64 >> 21u64) == (c >> 21u64) ==> vpn((c + 4096) as u64, 2) == vpn(c, 2)
            && vpn((c + 4096) as u64, 1) == vpn(c, 1),
{
    assert(c % 4096 == 0 ==> c & 0xFFF == 0) by (bit_vector);
    assert(c & 0xFFF == 0 && c < hi && hi <= 0xFFFF_FFFF_FFFF_F000 ==> {
        &&& ((hi - 1) as u64 >> 30u64) >= (c >> 30u64)
        &&& ((hi - 1) as u64 >> 21u64) >= (c >> 21u64)
        &&& (((c + 4096) as u64 >> 30u64) == (c >> 30u64) || ((c + 4096) as u64 >> 30u64) == (c >> 30u64) + 1)
        &&& (((c + 4096) as u64 >> 21u64) == (c >> 21u64) || ((c + 4096) as u64 >> 21u64) == (c >> 21u64) + 1)
        &&& (((c + 4096) as u64 >> 30u64) != (c >> 30u64) ==> ((c + 4096) as u64 >> 21u64) != (c >> 21u64))
        &&& (((c + 4096) as u64 >> 30u64) == (c >> 30u64) ==> (((c + 4096) as u64 >> 30u64) & 0x1FF) == ((c >> 30u64) & 0x1FF))
        &&& (((c + 4096) as u64 >> 21u64) == (c >> 21u64) ==> (((c + 4096) as u64 >> 21u64) & 0x1FF) == ((c >> 21u64) & 0x1FF) && (((c + 4096) as u64 >> 30u64) & 0x1FF) == ((c >> 30u64) & 0x1FF))
    }) by (bit_vector);
}

/// One more page mapped onto itself at level 0 extends a run of pages each
/// mapped onto itself.
proof fn lemma_identity_step(
    r1: PageTable,
    s1: FramesView,
    r2: PageTable,
    s2: FramesView,
    first: u64,
    p: u64,
    bits: u64,
)
    requires
        p % 4096 == 0,
        first <= p,
        p + 4096 - first <= 0x80_0000_0000,
        forall|v: u64|
            first <= v < p ==> #[trigger] identity_mapped(r1, s1, v, bits),
        mapped(r1, s1, r2, s2, p, p, bits, 0),
        map_entries(r1, s1, r2, s2, p, p, bits, 0),
        forall|v: u64|
            walk_has_tables(r1, s1, v) && !same_region(v, p, 0) ==> #[trigger] walk_kept(r1, s1, r2, s2, v),
    ensures
        forall|v: u64|
            first <= v < p + 4096 ==> #[trigger] identity_mapped(r2, s2, v, bits),
{
    assert forall|v: u64| first <= v < p + 4096 implies #[trigger] identity_mapped(r2, s2, v, bits) by {
        if v < p {
            assert(identity_mapped(r1, s1, v, bits));
            lemma_distinct_pages(v, p);
            assert(walk_kept(r1, s1, r2, s2, v));
        } else {
            assert(same_region(v, p, 0)) by {
                assert(p & 0xFFF == 0 && p <= v < p + 4096 ==> (v >> 12u64) == (p >> 12u64) && (v
                    >> 21u64) == (p >> 21u64) && (v >> 30u64) == (p >> 30u64)) by (bit_vector);
                assert(p % 4096 == 0 ==> p & 0xFFF == 0) by (bit_vector);
            }
            assert(p & 0xFFF == 0 && p <= v < p + 4096 ==> v & !0xFFFu64 == p) by (bit_vector);
            assert(p % 4096 == 0 ==> p & 0xFFF == 0) by (bit_vector);
        }
    }
}

/// Maps every page from the one holding `start_address` up to the page
/// boundary at or past `end_address` to itself, with a 4 KiB leaf and the
/// access bits `bits`; stops at the first page that `map` refuses and
/// returns its error. It succeeds where the tree holds no leaf above level
/// 0 and enough frames are free for the tables the range may need.
pub fn map_range(
    frames: &mut FrameAllocator,
    root: &mut PageTable,
    start_address: usize,
    end_address: usize,
    bits: i64,
) -> (r: Result<(), MemoryError>)
    requires
        old(frames).wf(),
        tree_wf(*old(root), old(frames)@),
        (bits as u64) & PTE_RWX != 0,
        0 <= bits < 0x400,
        end_address + PAGE_SIZE - 1 <= usize::MAX,
    ensures
        final(frames).wf(),
        tree_wf(*final(root), final(frames)@),
        others_untouched(*old(root), old(frames)@, *final(root), final(frames)@),
        r is Err ==> r == Err::<(), MemoryError>(MemoryError::OutOfMemory) || r == Err::<
            (),
            MemoryError,
        >(MemoryError::AlreadyMapped),
        no_superpages(*old(root), old(frames)@) && old(frames)@.free_count() >= range_tables(
            page_floor(start_address as int) as u64,
            crate::page::align_up(end_address as int, PAGE_SIZE as int) as u64,
        ) ==> r is Ok && no_superpages(*final(root), final(frames)@),
        r is Ok && crate::page::align_up(end_address as int, PAGE_SIZE as int) - page_floor(
            start_address as int,
        ) <= 0x80_0000_0000 ==> forall|v: u64|
            page_floor(start_address as int) <= v < crate::page::align_up(
                end_address as int,
                PAGE_SIZE as int,
            ) ==> #[trigger] identity_mapped(*final(root), final(frames)@, v, bits as u64),
        forall|v: u64|
            outside_pages(
                v,
                page_floor(start_address as int),
                crate::page::align_up(end_address as int, PAGE_SIZE as int),
            ) ==> #[trigger] translate(*final(root), final(frames)@, v) == translate(
                *old(root),
                old(frames)@,
                v,
            ),
{
    proof {
        lemma_untouched_refl(*root, frames@);
    }
    let first = start_address - start_address % PAGE_SIZE;
    proof {
        vstd::arithmetic::power2::lemma2_to64();
    }
    let last = align_value(end_address, PAGE_ORDER);
    assert(last == crate::page::align_up(end_address as int, PAGE_SIZE as int));
    assert(first == page_floor(start_address as int));
    let ghost owed = no_superpages(*root, frames@) && frames@.free_count() >= range_tables(
        first as u64,
        last as u64,
    );
    assert(owed == (no_superpages(*old(root), old(frames)@) && old(frames)@.free_count() >= range_tables(
        page_floor(start_address as int) as u64,
        crate::page::align_up(end_address as int, PAGE_SIZE as int) as u64,
    )));
    if last <= first {
        return Ok(());
    }
    let num_pages = (last - first) / PAGE_SIZE;
    let mut memory_address = first;
    let mut n: usize = 0;
    proof {
        vstd::arithmetic::div_mod::lemma_mod_multiples_basic(0, 4096);
        vstd::arithmetic::div_mod::lemma_fundamental_div_mod(last as int, 4096);
        vstd::arithmetic::div_mod::lemma_fundamental_div_mod(start_address as int, 4096);
        vstd::arithmetic::div_mod::lemma_fundamental_div_mod((last - first) as int, 4096);
        vstd::arithmetic::div_mod::lemma_mod_multiples_basic((last + 4095) as int / 4096, 4096);
    }
    assert(first % 4096 == 0 && last % 4096 == 0) by {
        vstd::arithmetic::div_mod::lemma_mod_multiples_basic(start_address as int / 4096, 4096);
        vstd::arithmetic::div_mod::lemma_mod_multiples_basic((end_address as int + 4095) / 4096, 4096);
    }
    assert(num_pages * 4096 == last - first) by {
        vstd::arithmetic::div_mod::lemma_mod_multiples_basic(0, 4096);
        vstd::arithmetic::div_mod::lemma_sub_mod_noop(last as int, first as int, 4096);
    }
    assert(last <= 0xFFFF_FFFF_FFFF_F000) by {
        assert(last % 4096 == 0);
        assert(last <= usize::MAX);
    }
    while n < num_pages
        invariant
            frames.wf(),
            tree_wf(*root, frames@),
            (bits as u64) & PTE_RWX != 0,
            0 <= bits < 0x400,
            others_untouched(*old(root), old(frames)@, *root, frames@),
            n <= num_pages,
            num_pages * 4096 == last - first,
            first % 4096 == 0,
            memory_address == first + n * 4096,
            first < last,
            last <= usize::MAX,
            last <= 0xFFFF_FFFF_FFFF_F000,
            last == crate::page::align_up(end_address as int, PAGE_SIZE as int),
            first == page_floor(start_address as int),
            owed == (no_superpages(*old(root), old(frames)@) && old(frames)@.free_count() >= range_tables(
                page_floor(start_address as int) as u64,
                crate::page::align_up(end_address as int, PAGE_SIZE as int) as u64,
            )),
            owed ==> no_superpages(*root, frames@),
            owed && memory_address < last ==> frames@.free_count() + tables_on_walk(
                *root,
                frames@,
                memory_address as u64,
            ) >= range_tables(memory_address as u64, last as u64),
            last - first <= 0x80_0000_0000 ==> forall|v: u64|
                first <= v < memory_address ==> #[trigger] identity_mapped(*root, frames@, v, bits as u64),
            forall|v: u64|
                outside_pages(v, first as int, memory_address as int) ==> #[trigger] translate(
                    *root,
                    frames@,
                    v,
                ) == translate(*old(root), old(frames)@, v),
        decreases num_pages - n,
    {
        let ghost s1 = frames@;
        let ghost r1 = *root;
        let ghost p = memory_address as u64;
        assert(memory_address + 4096 <= last) by (nonlinear_arith)
            requires
                memory_address == first + n * 4096,
                n < num_pages,
                num_pages * 4096 == last - first,
        ;
        assert(p % 4096 == 0) by {
            vstd::arithmetic::div_mod::lemma_mod_multiples_basic(n as int, 4096);
            vstd::arithmetic::div_mod::lemma_mod_adds(first as int, n * 4096, 4096);
        }
        proof {
            if owed {
                lemma_needed_on_walk(r1, s1, p);
                lemma_next_page(p, last as u64);
                assert(range_tables(p, last as u64) >= 2);
                assert(s1.free_count() >= 2 - tables_on_walk(r1, s1, p));
            }
        }
        let result = map(frames, root, memory_address, memory_address, bits, 0);
        proof {
            lemma_untouched_trans(*old(root), old(frames)@, r1, s1, *root, frames@);
        }
        match result {
            Err(e) => {
                assert(!owed);
                assert(forall|v: u64| #[trigger] translate(*root, frames@, v) == translate(r1, s1, v));
                assert forall|v: u64|
                    outside_pages(
                        v,
                        first as int,
                        crate::page::align_up(end_address as int, PAGE_SIZE as int),
                    ) implies #[trigger] translate(*root, frames@, v) == translate(
                    *old(root),
                    old(frames)@,
                    v,
                ) by {
                    assert forall|q: u64| first <= q < memory_address implies !#[trigger] same_region(
                        v,
                        q,
                        0,
                    ) by {
                        assert(q < last);
                    }
                }
                return Err(e);
            },
            Ok(()) => {},
        }
        proof {
            if last - first <= 0x80_0000_0000 {
                lemma_identity_step(r1, s1, *root, frames@, first as u64, p, bits as u64);
            }
            assert forall|v: u64| outside_pages(v, first as int, memory_address + 4096) implies #[trigger] translate(
                *root,
                frames@,
                v,
            ) == translate(*old(root), old(frames)@, v) by {
                assert(!same_region(v, p, 0));
                assert(outside_pages(v, first as int, memory_address as int));
            }
            if owed {
                let q = (p + 4096) as u64;
                assert(tables_on_walk(*root, frames@, p) == 2);
                if q < last {
                    assert(walk_entry(*root, frames@, q, 2) == walk_entry(*root, frames@, p, 2) || (q
                        >> 30u64) != (p >> 30u64));
                    assert(walk_entry(*root, frames@, q, 1) == walk_entry(*root, frames@, p, 1) || (q
                        >> 21u64) != (p >> 21u64));
                }
            }
        }
        memory_address = memory_address + PAGE_SIZE;
        n = n + 1;
    }
    Ok(())
}

/// Frame `k` keeps its descriptor and its words from `s` to `s2`.
pub open spec fn frame_untouched(s: FramesView, s2: FramesView, k: int) -> bool {
    &&& s2.flags[k] == s.flags[k]
    &&& forall|w: int| k * 512 <= w < k * 512 + 512 ==> #[trigger] s2.memory[w] == s.memory[w]
}

/// Every frame that is taken in `s` and holds no table of the tree under
/// `root` keeps its descriptor and words in `s2`, and holds no table of the
/// tree under `root2` there.
pub open spec fn others_untouched(root: PageTable, s: FramesView, root2: PageTable, s2: FramesView) -> bool {
    &&& s2.alloc_start == s.alloc_start
    &&& s2.heap_start == s.heap_start
    &&& s2.flags.len() == s.flags.len()
    &&& forall|k: int|
        0 <= k < s.flags.len() && s.flags[k] != 0 && !is_tree_frame(root, s, k) ==> #[trigger] frame_untouched(
            s,
            s2,
            k,
        ) && !is_tree_frame(root2, s2, k)
}

proof fn lemma_untouched_refl(root: PageTable, s: FramesView)
    ensures
        others_untouched(root, s, root, s),
{
}

proof fn lemma_untouched_trans(
    r1: PageTable,
    s1: FramesView,
    r2: PageTable,
    s2: FramesView,
    r3: PageTable,
    s3: FramesView,
)
    requires
        others_untouched(r1, s1, r2, s2),
        others_untouched(r2, s2, r3, s3),
    ensures
        others_untouched(r1, s1, r3, s3),
{
    assert forall|k: int|
        0 <= k < s1.flags.len() && s1.flags[k] != 0 && !is_tree_frame(r1, s1, k) implies #[trigger] frame_untouched(
        s1,
        s3,
        k,
    ) && !is_tree_frame(r3, s3, k) by {
        assert(frame_untouched(s1, s2, k));
        assert(frame_untouched(s2, s3, k));
    }
}

/// The tables of the tree under `root2` in `s2` are tables of the tree under
/// `root` in `s`, but for those in frame `extra`.
proof fn lemma_tree_frames_subset(root: PageTable, s: FramesView, root2: PageTable, s2: FramesView, extra: int)
    requires
        s2.alloc_start == s.alloc_start,
        forall|n: int|
            0 <= n < 512 && #[trigger] l1_present(root2, n) ==> (l1_present(root, n) && l1_table(root2, n)
                == l1_table(root, n)) || s2.frame_of(l1_table(root2, n) as int) == extra,
        forall|n: int, m: int|
            0 <= n < 512 && 0 <= m < 512 && #[trigger] l0_present(root2, s2, n, m) ==> (l0_present(root, s, n, m)
                && l0_table(root2, s2, n, m) == l0_table(root, s, n, m)) || s2.frame_of(
                l0_table(root2, s2, n, m) as int,
            ) == extra,
    ensures
        forall|k: int| #[trigger] is_tree_frame(root2, s2, k) ==> is_tree_frame(root, s, k) || k == extra,
{
    assert forall|k: int| #[trigger] is_tree_frame(root2, s2, k) implies is_tree_frame(root, s, k) || k == extra by {
        if exists|n: int|
            0 <= n < 512 && #[trigger] l1_present(root2, n) && s2.frame_of(l1_table(root2, n) as int) == k {
            let n = choose|n: int|
                0 <= n < 512 && #[trigger] l1_present(root2, n) && s2.frame_of(l1_table(root2, n) as int) == k;
            if k != extra {
                assert(l1_present(root, n));
            }
        } else {
            let (n, m) = choose|n: int, m: int|
                0 <= n < 512 && 0 <= m < 512 && (n < 512 || (n == 512 && m < 0)) && #[trigger] l0_present(
                    root2,
                    s2,
                    n,
                    m,
                ) && s2.frame_of(l0_table(root2, s2, n, m) as int) == k;
            if k != extra {
                assert(l0_present(root, s, n, m));
            }
        }
    }
}

/// A word written in the table at `t` leaves every other frame untouched.
proof fn lemma_write_other_frames(s: FramesView, s2: FramesView, t: u64, j: int, v: u64)
    requires
        s.wf(),
        holds_table(s, t),
        0 <= j < 512,
        s2 == (FramesView { memory: s.memory.update(s.frame_of(t as int) * 512 + j, v), ..s }),
    ensures
        forall|k: int| 0 <= k < s.flags.len() && k != s.frame_of(t as int) ==> #[trigger] frame_untouched(s, s2, k),
{
    lemma_table_frame(s, t);
    let f = s.frame_of(t as int);
    assert forall|k: int| 0 <= k < s.flags.len() && k != f implies #[trigger] frame_untouched(s, s2, k) by {
        assert forall|w: int| k * 512 <= w < k * 512 + 512 implies #[trigger] s2.memory[w] == s.memory[w] by {
            assert(w != f * 512 + j) by (nonlinear_arith)
                requires
                    k * 512 <= w < k * 512 + 512,
                    k != f,
                    0 <= j < 512,
            ;
        }
    }
}

/// `zalloc(1)` leaves every frame but the one it hands out untouched.
proof fn lemma_zalloc_untouched(s0: FramesView)
    requires
        s0.wf(),
        s0.fit(1) is Some,
    ensures
        s0.flags[s0.fit(1)->Some_0] == 0,
        s0.frame_of(s0.alloc_address(1)->Some_0 as int) == s0.fit(1)->Some_0,
        forall|k: int|
            0 <= k < s0.flags.len() && k != s0.fit(1)->Some_0 ==> #[trigger] frame_untouched(
                s0,
                s0.after_zalloc(1),
                k,
            ),
{
    let f = s0.fit(1)->Some_0;
    lemma_first_fit_found(s0.flags, 1, 0);
    lemma_frame_of_address(s0, f);
    let s1 = s0.after_zalloc(1);
    assert forall|k: int| 0 <= k < s0.flags.len() && k != f implies #[trigger] frame_untouched(s0, s1, k) by {
        assert forall|w: int| k * 512 <= w < k * 512 + 512 implies #[trigger] s1.memory[w] == s0.memory[w] by {
            assert(!(f * 512 <= w < (f + 1) * 512)) by (nonlinear_arith)
                requires
                    k * 512 <= w < k * 512 + 512,
                    k != f,
            ;
            assert(0 <= w < s0.memory.len()) by (nonlinear_arith)
                requires
                    k * 512 <= w < k * 512 + 512,
                    0 <= k < s0.flags.len(),
                    s0.memory.len() == s0.flags.len() * 512,
            ;
        }
    }
}

/// Hooking a fresh table frame under root entry `i` leaves alone every frame
/// that was taken and held no table.
proof fn lemma_untouched_root_table(root: PageTable, root2: PageTable, s0: FramesView, i: int)
    requires
        s0.wf(),
        tree_wf(root, s0),
        0 <= i < 512,
        !pte_valid(root.entry(i)),
        s0.fit(1) is Some,
        forall|n: int|
            0 <= n < 512 ==> #[trigger] root2.entry(n) == if n == i {
                table_entry(s0.alloc_address(1)->Some_0 as u64)
            } else {
                root.entry(n)
            },
    ensures
        others_untouched(root, s0, root2, s0.after_zalloc(1)),
{
    let s1 = s0.after_zalloc(1);
    let a = s0.alloc_address(1)->Some_0 as u64;
    let f = s0.fit(1)->Some_0;
    lemma_single_frame(s0);
    lemma_zalloc_table(root, s0);
    lemma_zalloc_untouched(s0);
    lemma_tables_kept(root, s0, s1);
    lemma_install_root_table(root, root2, s1, i, a);
    lemma_tree_frames_subset(root, s0, root, s1, -1);
    lemma_tree_frames_subset(root, s1, root2, s1, f);
    assert forall|k: int|
        0 <= k < s0.flags.len() && s0.flags[k] != 0 && !is_tree_frame(root, s0, k) implies #[trigger] frame_untouched(
        s0,
        s1,
        k,
    ) && !is_tree_frame(root2, s1, k) by {
        assert(k != f);
        assert(!is_tree_frame(root, s1, k));
    }
}

/// Hooking a fresh table frame under entry `j` of the level-1 table under
/// root entry `i` leaves alone every frame that was taken and held no table.
proof fn lemma_untouched_inner_table(root: PageTable, s0: FramesView, s2: FramesView, i: int, j: int)
    requires
        s0.wf(),
        tree_wf(root, s0),
        0 <= i < 512,
        0 <= j < 512,
        l1_present(root, i),
        !pte_valid(entry_at(s0, l1_table(root, i), j)),
        s0.fit(1) is Some,
        s2 == (FramesView {
            memory: s0.after_zalloc(1).memory.update(
                s0.frame_of(l1_table(root, i) as int) * 512 + j,
                table_entry(s0.alloc_address(1)->Some_0 as u64),
            ),
            ..s0.after_zalloc(1)
        }),
    ensures
        others_untouched(root, s0, root, s2),
{
    let s1 = s0.after_zalloc(1);
    let a = s0.alloc_address(1)->Some_0 as u64;
    let f = s0.fit(1)->Some_0;
    let t = l1_table(root, i);
    lemma_single_frame(s0);
    lemma_zalloc_table(root, s0);
    lemma_zalloc_untouched(s0);
    lemma_tables_kept(root, s0, s1);
    assert(table_frame_ok(s0, t));
    assert(frame_kept(s0, s1, t));
    assert(entry_at(s1, t, j) == entry_at(s0, t, j));
    lemma_install_inner_table(root, s1, s2, i, j, a);
    lemma_write_other_frames(s1, s2, t, j, table_entry(a));
    lemma_tree_frames_subset(root, s0, root, s1, -1);
    lemma_tree_frames_subset(root, s1, root, s2, f);
    let ft = s0.frame_of(t as int);
    assert(reached_frame(root, s0, ft, 512, 0));
    assert forall|k: int|
        0 <= k < s0.flags.len() && s0.flags[k] != 0 && !is_tree_frame(root, s0, k) implies #[trigger] frame_untouched(
        s0,
        s2,
        k,
    ) && !is_tree_frame(root, s2, k) by {
        assert(k != f);
        assert(k != ft);
        assert(frame_untouched(s0, s1, k));
        assert(frame_untouched(s1, s2, k));
        assert(!is_tree_frame(root, s1, k));
    }
}

/// Writing a leaf into a root entry leaves every frame alone.
proof fn lemma_untouched_root_leaf(root: PageTable, root2: PageTable, s: FramesView, i: int, leaf: u64)
    requires
        s.wf(),
        tree_wf(root, s),
        0 <= i < 512,
        pte_valid(leaf) && pte_leaf(leaf),
        forall|n: int|
            0 <= n < 512 ==> #[trigger] root2.entry(n) == if n == i {
                leaf
            } else {
                root.entry(n)
            },
    ensures
        others_untouched(root, s, root2, s),
{
    lemma_root_leaf(root, root2, s, i, leaf);
    lemma_tree_frames_subset(root, s, root2, s, -1);
}

/// Writing a leaf into a level-1 table leaves alone every frame that holds
/// no table.
proof fn lemma_untouched_inner_leaf(root: PageTable, s: FramesView, s2: FramesView, i: int, j: int, leaf: u64)
    requires
        s.wf(),
        tree_wf(root, s),
        0 <= i < 512,
        0 <= j < 512,
        l1_present(root, i),
        pte_valid(leaf) && pte_leaf(leaf),
        s2 == (FramesView {
            memory: s.memory.update(s.frame_of(l1_table(root, i) as int) * 512 + j, leaf),
            ..s
        }),
    ensures
        others_untouched(root, s, root, s2),
{
    let t = l1_table(root, i);
    assert(table_frame_ok(s, t));
    lemma_inner_leaf(root, s, s2, i, j, leaf);
    lemma_write_other_frames(s, s2, t, j, leaf);
    lemma_tree_frames_subset(root, s, root, s2, -1);
    assert(reached_frame(root, s, s.frame_of(t as int), 512, 0));
}

/// Writing a leaf into a level-0 table leaves alone every frame that holds
/// no table.
proof fn lemma_untouched_bottom_leaf(
    root: PageTable,
    s: FramesView,
    s2: FramesView,
    i: int,
    j: int,
    k: int,
    leaf: u64,
)
    requires
        s.wf(),
        tree_wf(root, s),
        0 <= i < 512,
        0 <= j < 512,
        0 <= k < 512,
        l0_present(root, s, i, j),
        pte_valid(leaf) && pte_leaf(leaf),
        s2 == (FramesView {
            memory: s.memory.update(s.frame_of(l0_table(root, s, i, j) as int) * 512 + k, leaf),
            ..s
        }),
    ensures
        others_untouched(root, s, root, s2),
{
    let t = l0_table(root, s, i, j);
    assert(table_frame_ok(s, t));
    lemma_bottom_leaf(root, s, s2, i, j, k, leaf);
    lemma_write_other_frames(s, s2, t, k, leaf);
    lemma_tree_frames_subset(root, s, root, s2, -1);
    assert(reached_frame(root, s, s.frame_of(t as int), 512, 0));
}

} // verus!
