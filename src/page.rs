//! Physical frame allocator: one descriptor byte per frame, first-fit
//! allocation of contiguous runs, and the contents of the allocation area.
use vstd::prelude::*;

verus! {

/// log2 of the frame size.
pub const PAGE_ORDER: usize = 12;

/// Size of a frame in bytes.
pub const PAGE_SIZE: usize = 4096;

/// Number of 64-bit words in one frame.
pub const WORDS_PER_PAGE: usize = 512;

/// Descriptor bit: the frame belongs to an allocated run.
pub const TAKEN: u8 = 1;

/// Descriptor bit: the frame is the last one of its run.
pub const LAST: u8 = 2;

/// Descriptor value of the last frame of a run.
pub const TAKEN_LAST: u8 = 3;

/// The flag values a frame descriptor can carry.
pub enum PageBits {
    Empty,
    Taken,
    Last,
}

impl PageBits {
    pub open spec fn spec_val(self) -> u8 {
        match self {
            PageBits::Empty => 0,
            PageBits::Taken => TAKEN,
            PageBits::Last => LAST,
        }
    }

    /// The bit pattern of the flag.
    pub fn val(self) -> (r: u8)
        ensures
            r == self.spec_val(),
    {
        match self {
            PageBits::Empty => 0,
            PageBits::Taken => TAKEN,
            PageBits::Last => LAST,
        }
    }
}

/// Facts about the three descriptor values that a well-formed table holds.
pub proof fn lemma_flag_values(x: u8)
    ensures
        x == 0 ==> x & TAKEN == 0 && x & LAST == 0,
        x == TAKEN ==> x & TAKEN != 0 && x & LAST == 0,
        x == TAKEN_LAST ==> x & TAKEN != 0 && x & LAST != 0,
        0u8 | TAKEN == TAKEN,
        0u8 | TAKEN | LAST == TAKEN_LAST,
{
    assert(x == 0 ==> x & 1 == 0 && x & 2 == 0) by (bit_vector);
    assert(x == 1 ==> x & 1 != 0 && x & 2 == 0) by (bit_vector);
    assert(x == 3 ==> x & 1 != 0 && x & 2 != 0) by (bit_vector);
    assert(0u8 | 1 == 1 && 0u8 | 1 | 2 == 3) by (bit_vector);
}

/// Rounds `value` up to a multiple of `unit`.
pub open spec fn align_up(value: int, unit: int) -> int {
    ((value + unit - 1) / unit) * unit
}

/// Rounds `value` up to the next multiple of `2^order`.
pub fn align_value(value: usize, order: usize) -> (r: usize)
    requires
        order < usize::BITS,
        value + vstd::arithmetic::power2::pow2(order as nat) - 1 <= usize::MAX,
    ensures
        r == align_up(value as int, vstd::arithmetic::power2::pow2(order as nat) as int),
{
    proof {
        vstd::bits::lemma_usize_pow2_no_overflow(order as nat);
        vstd::bits::lemma_usize_shl_is_mul(1, order as usize);
    }
    let mask: usize = (1usize << order) - 1;
    let sum: usize = value + mask;
    let r: usize = sum & !mask;
    assert(r == sum - (sum & mask)) by (bit_vector)
        requires
            r == sum & !mask,
    ;
    proof {
        vstd::bits::lemma_usize_low_bits_mask_is_mod(sum, order as nat);
        let u = mask as int + 1;
        assert(mask as nat == vstd::bits::low_bits_mask(order as nat));
        assert(sum & mask == sum % (u as usize));
        vstd::arithmetic::div_mod::lemma_fundamental_div_mod(sum as int, u);
        vstd::arithmetic::mul::lemma_mul_is_commutative(u, sum as int / u);
    }
    r
}

/// A frame descriptor.
pub struct Page {
    pub flags: u8,
}

impl Page {
    pub fn is_last(&self) -> (r: bool)
        ensures
            r == (self.flags & LAST != 0),
    {
        self.flags & LAST != 0
    }

    pub fn is_taken(&self) -> (r: bool)
        ensures
            r == (self.flags & TAKEN != 0),
    {
        self.flags & TAKEN != 0
    }

    pub fn is_free(&self) -> (r: bool)
        ensures
            r == (self.flags & TAKEN == 0),
    {
        !self.is_taken()
    }

    pub fn clear(&mut self)
        ensures
            final(self).flags == 0,
    {
        self.flags = 0;
    }

    pub fn set_flag(&mut self, flag: PageBits)
        ensures
            final(self).flags == old(self).flags | flag.spec_val(),
    {
        self.flags = self.flags | flag.val();
    }
}

/// Errors reported by the frame allocator, the page tables and the heap.
#[derive(Debug, Clone, Copy, PartialEq, Eq, Structural)]
pub enum MemoryError {
    /// No run of frames or heap block satisfies the request.
    OutOfMemory,
    /// The address is not the start of an allocated run or block.
    DoubleFreeOrInvalidAddress,
    /// A leaf entry already covers the address at a level above the one requested.
    AlreadyMapped,
}

/// The descriptor table holds only the three legal values, and every frame of
/// a run but its last is followed by another frame of the run.
pub open spec fn descriptors_wf(flags: Seq<u8>) -> bool {
    &&& forall|i: int|
        0 <= i < flags.len() ==> #[trigger] flags[i] == 0 || flags[i] == TAKEN || flags[i]
            == TAKEN_LAST
    &&& forall|i: int|
        0 <= i < flags.len() && #[trigger] flags[i] == TAKEN ==> i + 1 < flags.len() && flags[i
            + 1] != 0
}

/// Frames `start .. start + count` exist and are all free.
pub open spec fn is_free_run(flags: Seq<u8>, start: int, count: int) -> bool {
    &&& 0 <= start
    &&& 0 < count
    &&& start + count <= flags.len()
    &&& forall|j: int| start <= j < start + count ==> #[trigger] flags[j] == 0
}

/// The lowest index from `from` on at which `count` free frames begin.
pub open spec fn first_fit(flags: Seq<u8>, count: int, from: int) -> Option<int>
    decreases flags.len() - from,
{
    if count <= 0 || from < 0 || from + count > flags.len() {
        None
    } else if is_free_run(flags, from, count) {
        Some(from)
    } else {
        first_fit(flags, count, from + 1)
    }
}

/// The descriptors after the run `start .. start + count` is taken.
pub open spec fn allocated(flags: Seq<u8>, start: int, count: int) -> Seq<u8> {
    Seq::new(
        flags.len(),
        |j: int|
            if start <= j < start + count - 1 {
                TAKEN
            } else if j == start + count - 1 {
                TAKEN_LAST
            } else {
                flags[j]
            },
    )
}

/// The frame that ends the run holding frame `i`: the first at or after `i`
/// whose descriptor is marked last.
pub open spec fn run_end(flags: Seq<u8>, i: int) -> int
    decreases flags.len() - i,
{
    if i < 0 || i >= flags.len() || flags[i] == TAKEN_LAST {
        i
    } else {
        run_end(flags, i + 1)
    }
}

/// Frame `i` is the first frame of an allocated run.
pub open spec fn is_run_start(flags: Seq<u8>, i: int) -> bool {
    &&& 0 <= i < flags.len()
    &&& flags[i] != 0
    &&& (i == 0 || flags[i - 1] != TAKEN)
}

/// The descriptors after the run that starts at frame `i` is released.
pub open spec fn released(flags: Seq<u8>, i: int) -> Seq<u8> {
    Seq::new(flags.len(), |j: int| if i <= j <= run_end(flags, i) { 0 } else { flags[j] })
}

/// The number of free frames among the first `m`.
pub open spec fn free_in(flags: Seq<u8>, m: int) -> nat
    decreases m,
{
    if m <= 0 {
        0
    } else {
        free_in(flags, m - 1) + if flags[m - 1] == 0 {
            1nat
        } else {
            0nat
        }
    }
}

/// Memory with the words of frames `start .. start + count` set to zero.
pub open spec fn zeroed(memory: Seq<u64>, start: int, count: int) -> Seq<u64> {
    Seq::new(
        memory.len(),
        |w: int|
            if start * WORDS_PER_PAGE <= w < (start + count) * WORDS_PER_PAGE {
                0
            } else {
                memory[w]
            },
    )
}

/// The physical heap region as mathematical values: where it starts, where the
/// allocation area starts, one descriptor per frame, and the words of the
/// allocation area.
pub struct FramesView {
    pub heap_start: int,
    pub alloc_start: int,
    pub flags: Seq<u8>,
    pub memory: Seq<u64>,
}

impl FramesView {
    pub open spec fn num_frames(self) -> int {
        self.flags.len() as int
    }

    pub open spec fn wf(self) -> bool {
        &&& self.alloc_start % PAGE_SIZE as int == 0
        &&& 0 <= self.alloc_start
        &&& self.alloc_start + self.flags.len() * PAGE_SIZE <= usize::MAX
        &&& self.memory.len() == self.flags.len() * WORDS_PER_PAGE
        &&& descriptors_wf(self.flags)
    }

    /// Address of the first byte of frame `i`.
    pub open spec fn frame_address(self, i: int) -> int {
        self.alloc_start + i * PAGE_SIZE
    }

    /// The frame that holds `address`.
    pub open spec fn frame_of(self, address: int) -> int {
        (address - self.alloc_start) / PAGE_SIZE as int
    }

    pub open spec fn in_area(self, address: int) -> bool {
        self.alloc_start <= address < self.alloc_start + self.flags.len() * PAGE_SIZE
    }

    /// `address` is the first byte of a word of the allocation area.
    pub open spec fn holds_word(self, address: int) -> bool {
        self.in_area(address) && (address - self.alloc_start) % 8 == 0
    }

    pub open spec fn word_index(self, address: int) -> int {
        (address - self.alloc_start) / 8
    }

    /// The word stored at `address`.
    pub open spec fn word(self, address: int) -> u64 {
        self.memory[self.word_index(address)]
    }

    /// Where `alloc(count)` places its run, if anywhere.
    pub open spec fn fit(self, count: int) -> Option<int> {
        first_fit(self.flags, count, 0)
    }

    /// The address that `alloc(count)` returns.
    pub open spec fn alloc_address(self, count: int) -> Option<usize> {
        match self.fit(count) {
            Some(i) => Some(self.frame_address(i) as usize),
            None => None,
        }
    }

    /// The state after `alloc(count)`.
    pub open spec fn after_alloc(self, count: int) -> FramesView {
        match self.fit(count) {
            Some(i) => FramesView { flags: allocated(self.flags, i, count), ..self },
            None => self,
        }
    }

    /// The state after `zalloc(count)`.
    pub open spec fn after_zalloc(self, count: int) -> FramesView {
        match self.fit(count) {
            Some(i) => FramesView {
                flags: allocated(self.flags, i, count),
                memory: zeroed(self.memory, i, count),
                ..self
            },
            None => self,
        }
    }

    /// The state after the run starting at frame `i` is released.
    pub open spec fn after_dealloc(self, i: int) -> FramesView {
        FramesView { flags: released(self.flags, i), ..self }
    }

    /// The number of free frames.
    pub open spec fn free_count(self) -> nat {
        free_in(self.flags, self.flags.len() as int)
    }
}

/// The physical heap region: a descriptor table with one entry per frame, and
/// the frames of the allocation area that follows it.
pub struct FrameAllocator {
    heap_start: usize,
    alloc_start: usize,
    pages: Vec<Page>,
    memory: Vec<u64>,
}

impl View for FrameAllocator {
    type V = FramesView;

    closed spec fn view(&self) -> FramesView {
        FramesView {
            heap_start: self.heap_start as int,
            alloc_start: self.alloc_start as int,
            flags: Seq::new(self.pages@.len(), |i: int| self.pages@[i].flags),
            memory: self.memory@,
        }
    }
}

/// Under well-formed descriptors, the run through a taken frame `i` goes on
/// with frames marked taken up to a frame marked last.
pub proof fn lemma_run_end(flags: Seq<u8>, i: int)
    requires
        descriptors_wf(flags),
        0 <= i < flags.len(),
        flags[i] != 0,
    ensures
        i <= run_end(flags, i) < flags.len(),
        flags[run_end(flags, i)] == TAKEN_LAST,
        forall|j: int| i <= j < run_end(flags, i) ==> flags[j] == TAKEN,
    decreases flags.len() - i,
{
    if flags[i] != TAKEN_LAST {
        assert(flags[i] == TAKEN);
        lemma_run_end(flags, i + 1);
    }
}

/// Taking a free run keeps the descriptor table well formed.
pub proof fn lemma_allocated_wf(flags: Seq<u8>, start: int, count: int)
    requires
        descriptors_wf(flags),
        is_free_run(flags, start, count),
    ensures
        descriptors_wf(allocated(flags, start, count)),
{
    let a = allocated(flags, start, count);
    assert forall|i: int| 0 <= i < a.len() && #[trigger] a[i] == TAKEN implies i + 1 < a.len()
        && a[i + 1] != 0 by {
        if !(start <= i < start + count) {
            assert(flags[i] == TAKEN);
        }
    }
}

/// Releasing the run that starts at `i` keeps the descriptor table well formed.
pub proof fn lemma_released_wf(flags: Seq<u8>, i: int)
    requires
        descriptors_wf(flags),
        is_run_start(flags, i),
    ensures
        descriptors_wf(released(flags, i)),
{
    lemma_run_end(flags, i);
    let r = released(flags, i);
    let e = run_end(flags, i);
    assert forall|j: int| 0 <= j < r.len() && #[trigger] r[j] == TAKEN implies j + 1 < r.len()
        && r[j + 1] != 0 by {
        assert(flags[j] == TAKEN);
        assert(!(i <= j <= e));
        assert(j + 1 != i);
    }
}

/// A search that starts past a frame that cannot begin a run finds what a
/// search from that frame finds.
proof fn lemma_first_fit_step(flags: Seq<u8>, count: int, from: int)
    requires
        0 <= from,
        0 < count,
        from + count <= flags.len(),
        !is_free_run(flags, from, count),
    ensures
        first_fit(flags, count, from) == first_fit(flags, count, from + 1),
{
}

/// A request for more frames than there are finds no run.
proof fn lemma_first_fit_too_large(flags: Seq<u8>, count: int, from: int)
    requires
        0 <= from,
        count > flags.len(),
    ensures
        first_fit(flags, count, from) is None,
{
}

impl FrameAllocator {
    pub open spec fn wf(&self) -> bool {
        self@.wf()
    }

    /// Number of frames that the allocator manages.
    pub fn num_frames(&self) -> (r: usize)
        ensures
            r == self@.num_frames(),
    {
        self.pages.len()
    }

    /// Address of the first frame of the allocation area.
    pub fn alloc_start(&self) -> (r: usize)
        ensures
            r == self@.alloc_start,
    {
        self.alloc_start
    }

    /// Address of the descriptor table.
    pub fn heap_start(&self) -> (r: usize)
        ensures
            r == self@.heap_start,
    {
        self.heap_start
    }

    /// The descriptor of frame `i`.
    pub fn flags(&self, i: usize) -> (r: u8)
        requires
            i < self@.num_frames(),
        ensures
            r == self@.flags[i as int],
    {
        self.pages[i].flags
    }

    /// The word stored at `address`.
    pub fn read_word(&self, address: usize) -> (r: u64)
        requires
            self.wf(),
            self@.holds_word(address as int),
        ensures
            r == self@.word(address as int),
    {
        self.memory[(address - self.alloc_start) / 8]
    }

    /// Stores `value` in the word at `address`.
    pub fn write_word(&mut self, address: usize, value: u64)
        requires
            old(self).wf(),
            old(self)@.holds_word(address as int),
        ensures
            final(self)@ == (FramesView {
                memory: old(self)@.memory.update(old(self)@.word_index(address as int), value),
                ..old(self)@
            }),
    {
        let w = (address - self.alloc_start) / 8;
        self.memory.set(w, value);
        assert(self@.flags =~= old(self)@.flags);
    }

    /// Whether frames `start .. start + count` are all free.
    fn run_is_free(&self, start: usize, count: usize) -> (r: bool)
        requires
            self.wf(),
            0 < count,
            start + count <= self@.num_frames(),
        ensures
            r == is_free_run(self@.flags, start as int, count as int),
    {
        let mut j: usize = start;
        while j < start + count
            invariant
                self.wf(),
                start <= j <= start + count,
                start + count <= self@.num_frames(),
                forall|k: int| start <= k < j ==> self@.flags[k] == 0,
            decreases start + count - j,
        {
            proof {
                lemma_flag_values(self@.flags[j as int]);
            }
            if self.pages[j].is_taken() {
                return false;
            }
            j = j + 1;
        }
        true
    }

    /// Marks frames `start .. start + count` as one run.
    fn take_run(&mut self, start: usize, count: usize)
        requires
            old(self).wf(),
            is_free_run(old(self)@.flags, start as int, count as int),
        ensures
            final(self)@ == (FramesView {
                flags: allocated(old(self)@.flags, start as int, count as int),
                ..old(self)@
            }),
    {
        let ghost f0 = old(self)@.flags;
        assert(self.pages@.len() == f0.len());
        let last = start + count - 1;
        let mut k: usize = start;
        while k < last
            invariant
                start <= k <= last,
                last == start + count - 1,
                is_free_run(f0, start as int, count as int),
                self.pages@.len() == f0.len(),
                self.heap_start == old(self).heap_start,
                self.alloc_start == old(self).alloc_start,
                self.memory@ == old(self).memory@,
                forall|j: int|
                    0 <= j < f0.len() ==> (#[trigger] self.pages@[j]).flags == (if start <= j < k {
                        TAKEN
                    } else {
                        f0[j]
                    }),
            decreases last - k,
        {
            assert(f0[k as int] == 0);
            let mut page = Page { flags: self.pages[k].flags };
            page.set_flag(PageBits::Taken);
            proof {
                lemma_flag_values(0);
            }
            self.pages.set(k, page);
            k = k + 1;
        }
        assert(f0[last as int] == 0);
        let mut page = Page { flags: self.pages[last].flags };
        page.set_flag(PageBits::Taken);
        page.set_flag(PageBits::Last);
        proof {
            lemma_flag_values(0);
        }
        self.pages.set(last, page);
        assert(self@.flags =~= allocated(f0, start as int, count as int));
    }

    /// Sets the words of frames `start .. start + count` to zero.
    fn zero_run(&mut self, start: usize, count: usize)
        requires
            old(self).wf(),
            start + count <= old(self)@.num_frames(),
        ensures
            final(self)@ == (FramesView {
                memory: zeroed(old(self)@.memory, start as int, count as int),
                ..old(self)@
            }),
    {
        let ghost m0 = old(self)@.memory;
        let first = start * WORDS_PER_PAGE;
        let end = (start + count) * WORDS_PER_PAGE;
        let mut w: usize = first;
        assert(self@.memory =~= Seq::new(
            m0.len(),
            |v: int|
                if first <= v < w {
                    0
                } else {
                    m0[v]
                },
        ));
        while w < end
            invariant
                first == start * WORDS_PER_PAGE,
                end == (start + count) * WORDS_PER_PAGE,
                first <= w <= end,
                end <= m0.len(),
                self@ == (FramesView {
                    memory: Seq::new(
                        m0.len(),
                        |v: int|
                            if first <= v < w {
                                0
                            } else {
                                m0[v]
                            },
                    ),
                    ..old(self)@
                }),
            decreases end - w,
        {
            self.memory.set(w, 0);
            w = w + 1;
            assert(self@.flags =~= old(self)@.flags);
            assert(self@.memory =~= Seq::new(
                m0.len(),
                |v: int|
                    if first <= v < w {
                        0
                    } else {
                        m0[v]
                    },
            ));
        }
        assert(self@.memory =~= zeroed(m0, start as int, count as int));
    }
}

/// Sets up the allocator over the region `heap_start .. heap_start + heap_size`:
/// every descriptor is cleared and the allocation area starts at the first
/// frame boundary past the descriptor table.
pub fn init(heap_start: usize, heap_size: usize) -> (r: FrameAllocator)
    requires
        heap_start + heap_size / PAGE_SIZE + PAGE_SIZE - 1 <= usize::MAX,
        align_up(heap_start + heap_size / PAGE_SIZE, PAGE_SIZE as int) + (heap_size / PAGE_SIZE)
            * PAGE_SIZE <= usize::MAX,
    ensures
        r.wf(),
        r@.heap_start == heap_start,
        r@.alloc_start == align_up(heap_start + heap_size / PAGE_SIZE, PAGE_SIZE as int),
        r@.flags == Seq::new((heap_size / PAGE_SIZE) as nat, |i: int| 0u8),
{
    let num_pages = heap_size / PAGE_SIZE;
    let mut pages: Vec<Page> = Vec::new();
    let mut i: usize = 0;
    while i < num_pages
        invariant
            i <= num_pages,
            pages@.len() == i,
            forall|j: int| 0 <= j < i ==> (#[trigger] pages@[j]).flags == 0,
        decreases num_pages - i,
    {
        let mut page = Page { flags: 0 };
        page.clear();
        pages.push(page);
        i = i + 1;
    }
    proof {
        vstd::arithmetic::power2::lemma2_to64();
    }
    let alloc_start = align_value(heap_start + num_pages, PAGE_ORDER);
    let words = num_pages * WORDS_PER_PAGE;
    let mut memory: Vec<u64> = Vec::new();
    let mut w: usize = 0;
    while w < words
        invariant
            w <= words,
            memory@.len() == w,
        decreases words - w,
    {
        memory.push(0);
        w = w + 1;
    }
    let r = FrameAllocator { heap_start, alloc_start, pages, memory };
    proof {
        let s = heap_start + num_pages;
        vstd::arithmetic::div_mod::lemma_mod_multiples_basic((s + 4095) / 4096, 4096);
    }
    assert(r@.flags =~= Seq::new((heap_size / PAGE_SIZE) as nat, |i: int| 0u8));
    r
}

/// Takes the first run of `pages` contiguous free frames, by ascending
/// address, and returns the address of its first frame; `None`, with nothing
/// changed, when no such run exists.
pub fn alloc_pages(frames: &mut FrameAllocator, pages: usize) -> (r: Option<usize>)
    requires
        old(frames).wf(),
        pages > 0,
    ensures
        final(frames).wf(),
        final(frames)@ == old(frames)@.after_alloc(pages as int),
        r == old(frames)@.alloc_address(pages as int),
{
    let num_pages = frames.num_frames();
    if pages > num_pages {
        proof {
            lemma_first_fit_too_large(frames@.flags, pages as int, 0);
        }
        return None;
    }
    let mut i: usize = 0;
    while i <= num_pages - pages
        invariant
            frames.wf(),
            *frames == *old(frames),
            0 < pages <= num_pages,
            num_pages == frames@.num_frames(),
            i <= num_pages - pages + 1,
            first_fit(frames@.flags, pages as int, 0) == first_fit(
                frames@.flags,
                pages as int,
                i as int,
            ),
        decreases num_pages - pages + 1 - i,
    {
        if frames.run_is_free(i, pages) {
            let ghost before = frames@;
            assert(first_fit(before.flags, pages as int, i as int) == Some(i as int));
            proof {
                lemma_allocated_wf(before.flags, i as int, pages as int);
            }
            frames.take_run(i, pages);
            return Some(frames.alloc_start + PAGE_SIZE * i);
        }
        proof {
            lemma_first_fit_step(frames@.flags, pages as int, i as int);
        }
        i = i + 1;
    }
    None
}

/// As `alloc_pages`, and the words of the run are set to zero before it is returned.
pub fn zalloc(frames: &mut FrameAllocator, pages: usize) -> (r: Option<usize>)
    requires
        old(frames).wf(),
        pages > 0,
    ensures
        final(frames).wf(),
        final(frames)@ == old(frames)@.after_zalloc(pages as int),
        r == old(frames)@.alloc_address(pages as int),
{
    let ret = alloc_pages(frames, pages);
    match ret {
        Some(address) => {
            let ghost i = old(frames)@.fit(pages as int)->Some_0;
            proof {
                lemma_first_fit_found(old(frames)@.flags, pages as int, 0);
                lemma_frame_of_address(old(frames)@, i);
            }
            assert(address == frames@.alloc_start + i * 4096);
            let start = (address - frames.alloc_start) / PAGE_SIZE;
            assert(start == i);
            frames.zero_run(start, pages);
            Some(address)
        },
        None => None,
    }
}

/// Releases the run that starts at `address`: its descriptors are cleared
/// up to and including the one marked last. An address that is not the
/// first byte of an allocated run (off a frame boundary, in a free frame or
/// inside a run) is refused with `DoubleFreeOrInvalidAddress`, and nothing
/// changes; this is the double-free guard, which callers treat as fatal.
pub fn dealloc(frames: &mut FrameAllocator, address: usize) -> (r: Result<(), MemoryError>)
    requires
        old(frames).wf(),
        old(frames)@.in_area(address as int),
    ensures
        final(frames).wf(),
        r is Ok <==> (address - old(frames)@.alloc_start) % PAGE_SIZE as int == 0 && is_run_start(
            old(frames)@.flags,
            old(frames)@.frame_of(address as int),
        ),
        r is Ok ==> final(frames)@ == old(frames)@.after_dealloc(
            old(frames)@.frame_of(address as int),
        ),
        r is Err ==> r == Err::<(), MemoryError>(MemoryError::DoubleFreeOrInvalidAddress)
            && final(frames)@ == old(frames)@,
{
    let ghost f0 = old(frames)@.flags;
    if (address - frames.alloc_start) % PAGE_SIZE != 0 {
        return Err(MemoryError::DoubleFreeOrInvalidAddress);
    }
    let i = (address - frames.alloc_start) / PAGE_SIZE;
    assert(i < f0.len()) by (nonlinear_arith)
        requires
            i == (address - frames@.alloc_start) / 4096,
            address < frames@.alloc_start + f0.len() * 4096,
            frames@.alloc_start <= address,
    ;
    proof {
        lemma_flag_values(f0[i as int]);
        if i > 0 {
            lemma_flag_values(f0[i - 1]);
        }
    }
    if !frames.pages[i].is_taken() || (i > 0 && frames.pages[i - 1].is_taken()
        && !frames.pages[i - 1].is_last()) {
        return Err(MemoryError::DoubleFreeOrInvalidAddress);
    }
    proof {
        lemma_run_end(f0, i as int);
        lemma_released_wf(f0, i as int);
    }
    let ghost e = run_end(f0, i as int);
    let mut k: usize = i;
    proof {
        lemma_flag_values(f0[k as int]);
    }
    while frames.pages[k].is_taken() && !frames.pages[k].is_last()
        invariant
            i <= k <= e,
            e < f0.len(),
            f0.len() <= usize::MAX,
            f0[e] == TAKEN_LAST,
            forall|j: int| i <= j < e ==> f0[j] == TAKEN,
            frames.pages@.len() == f0.len(),
            frames.heap_start == old(frames).heap_start,
            frames.alloc_start == old(frames).alloc_start,
            frames.memory@ == old(frames).memory@,
            forall|j: int|
                0 <= j < f0.len() ==> (#[trigger] frames.pages@[j]).flags == (if i <= j < k {
                    0
                } else {
                    f0[j]
                }),
            frames.pages@[k as int].flags == TAKEN ==> frames.pages@[k as int].flags & TAKEN != 0
                && frames.pages@[k as int].flags & LAST == 0,
            frames.pages@[k as int].flags == TAKEN_LAST ==> frames.pages@[k as int].flags & TAKEN
                != 0 && frames.pages@[k as int].flags & LAST != 0,
        decreases e - k,
    {
        assert(k < e);
        let mut page = Page { flags: frames.pages[k].flags };
        page.clear();
        frames.pages.set(k, page);
        k = k + 1;
        proof {
            lemma_flag_values(f0[k as int]);
        }
    }
    let mut page = Page { flags: frames.pages[k].flags };
    page.clear();
    frames.pages.set(k, page);
    assert(frames@.flags =~= released(f0, i as int));
    Ok(())
}

proof fn lemma_free_in_monotonic(flags: Seq<u8>, m: int, k: int)
    requires
        0 <= m <= k,
    ensures
        free_in(flags, m) <= free_in(flags, k),
    decreases k - m,
{
    if m < k {
        lemma_free_in_monotonic(flags, m, k - 1);
    }
}

proof fn lemma_free_in_run(flags: Seq<u8>, start: int, count: int, m: int)
    requires
        is_free_run(flags, start, count),
        start <= m <= start + count,
    ensures
        free_in(flags, m) >= m - start,
    decreases m - start,
{
    if m > start {
        lemma_free_in_run(flags, start, count, m - 1);
        assert(flags[m - 1] == 0);
    }
}

pub proof fn lemma_first_fit_found(flags: Seq<u8>, count: int, from: int)
    requires
        first_fit(flags, count, from) is Some,
    ensures
        is_free_run(flags, first_fit(flags, count, from)->Some_0, count),
        from <= first_fit(flags, count, from)->Some_0,
    decreases flags.len() - from,
{
    if !is_free_run(flags, from, count) {
        lemma_first_fit_found(flags, count, from + 1);
    }
}

proof fn lemma_run_end_allocated(flags: Seq<u8>, start: int, count: int, j: int)
    requires
        is_free_run(flags, start, count),
        start <= j < start + count,
    ensures
        run_end(allocated(flags, start, count), j) == start + count - 1,
    decreases start + count - j,
{
    if j < start + count - 1 {
        lemma_run_end_allocated(flags, start, count, j + 1);
    }
}

pub proof fn lemma_frame_of_address(s: FramesView, i: int)
    requires
        s.wf(),
        0 <= i < s.num_frames(),
    ensures
        s.frame_of(s.frame_address(i)) == i,
        s.in_area(s.frame_address(i)),
        s.frame_address(i) <= usize::MAX,
{
    vstd::arithmetic::div_mod::lemma_div_multiples_vanish(i, PAGE_SIZE as int);
}

/// Releasing a run right after allocating it restores every descriptor, so
/// that the same request is served again at the same address.
pub proof fn lemma_alloc_dealloc_round_trip(s: FramesView, count: int)
    requires
        s.wf(),
        1 <= count <= s.num_frames(),
        s.fit(count) is Some,
    ensures
        ({
            let t = s.after_alloc(count);
            let i = t.frame_of(s.alloc_address(count)->Some_0 as int);
            &&& t.in_area(s.alloc_address(count)->Some_0 as int)
            &&& (s.alloc_address(count)->Some_0 - t.alloc_start) % PAGE_SIZE as int == 0
            &&& is_run_start(t.flags, i)
            &&& t.after_dealloc(i) == s
            &&& t.after_dealloc(i).alloc_address(count) == s.alloc_address(count)
        }),
{
    let i = s.fit(count)->Some_0;
    lemma_first_fit_found(s.flags, count, 0);
    lemma_frame_of_address(s, i);
    let a = allocated(s.flags, i, count);
    if i > 0 && s.flags[i - 1] == TAKEN {
        assert(s.flags[i] != 0);
    }
    lemma_run_end_allocated(s.flags, i, count, i);
    assert(released(a, i) =~= s.flags);
    vstd::arithmetic::div_mod::lemma_mod_multiples_basic(i, PAGE_SIZE as int);
}

/// Every word of the run that `zalloc` returns holds zero.
pub proof fn lemma_zalloc_zero_fill(s: FramesView, count: int, address: int)
    requires
        s.wf(),
        s.alloc_address(count) is Some,
        s.alloc_address(count)->Some_0 <= address < s.alloc_address(count)->Some_0 + count
            * PAGE_SIZE,
        (address - s.alloc_start) % 8 == 0,
    ensures
        s.after_zalloc(count).holds_word(address),
        s.after_zalloc(count).word(address) == 0,
{
    let i = s.fit(count)->Some_0;
    lemma_first_fit_found(s.flags, count, 0);
    lemma_frame_of_address(s, i);
    let w = (address - s.alloc_start) / 8;
    assert(i * WORDS_PER_PAGE <= w < (i + count) * WORDS_PER_PAGE) by (nonlinear_arith)
        requires
            s.alloc_start + i * 4096 <= address < s.alloc_start + i * 4096 + count * 4096,
            w == (address - s.alloc_start) / 8,
            (address - s.alloc_start) % 8 == 0,
    ;
}

/// The run that `alloc` hands out overlaps no frame that was taken; every
/// frame of it is now taken, and exactly one, the highest, is marked last.
pub proof fn lemma_alloc_contiguity(s: FramesView, count: int)
    requires
        s.wf(),
        s.fit(count) is Some,
    ensures
        ({
            let i = s.fit(count)->Some_0;
            let t = s.after_alloc(count);
            &&& forall|j: int| i <= j < i + count ==> s.flags[j] == 0
            &&& forall|j: int| i <= j < i + count ==> t.flags[j] & TAKEN != 0
            &&& forall|j: int| i <= j < i + count ==> (t.flags[j] & LAST != 0 <==> j == i + count - 1)
            &&& s.alloc_address(count) == Some(s.frame_address(i) as usize)
        }),
{
    let i = s.fit(count)->Some_0;
    lemma_first_fit_found(s.flags, count, 0);
    let t = s.after_alloc(count);
    assert forall|j: int| i <= j < i + count implies t.flags[j] & TAKEN != 0 && (t.flags[j] & LAST
        != 0 <==> j == i + count - 1) by {
        lemma_flag_values(t.flags[j]);
    }
}

/// A request for more frames than are free fails and changes nothing.
pub proof fn lemma_exhaustion(s: FramesView, count: int)
    requires
        s.wf(),
        count > s.free_count(),
    ensures
        s.alloc_address(count) is None,
        s.after_alloc(count) == s,
        s.after_zalloc(count) == s,
{
    if s.fit(count) is Some {
        let i = s.fit(count)->Some_0;
        lemma_first_fit_found(s.flags, count, 0);
        lemma_free_in_run(s.flags, i, count, i + count);
        lemma_free_in_monotonic(s.flags, i + count, s.flags.len() as int);
    }
}

proof fn lemma_free_in_witness(flags: Seq<u8>, m: int) -> (j: int)
    requires
        0 <= m <= flags.len(),
        free_in(flags, m) >= 1,
    ensures
        0 <= j < m,
        flags[j] == 0,
    decreases m,
{
    if flags[m - 1] == 0 {
        m - 1
    } else {
        lemma_free_in_witness(flags, m - 1)
    }
}

proof fn lemma_first_fit_one(flags: Seq<u8>, from: int, j: int)
    requires
        0 <= from <= j < flags.len(),
        flags[j] == 0,
    ensures
        first_fit(flags, 1, from) is Some,
    decreases j - from,
{
    if !is_free_run(flags, from, 1) {
        lemma_first_fit_one(flags, from + 1, j);
    }
}

proof fn lemma_free_in_taken(flags: Seq<u8>, f: int, m: int)
    requires
        0 <= f < flags.len(),
        flags[f] == 0,
        0 <= m <= flags.len(),
    ensures
        free_in(allocated(flags, f, 1), m) + (if m > f {
            1int
        } else {
            0int
        }) == free_in(flags, m),
    decreases m,
{
    if m > 0 {
        lemma_free_in_taken(flags, f, m - 1);
    }
}

/// A single frame can be had exactly when some frame is free, and taking it
/// leaves one free frame fewer.
pub proof fn lemma_single_frame(s: FramesView)
    requires
        s.wf(),
    ensures
        s.fit(1) is Some <==> s.free_count() >= 1,
        s.fit(1) is Some ==> s.after_zalloc(1).free_count() == s.free_count() - 1,
        s.fit(1) is Some ==> s.after_zalloc(1).wf(),
{
    if s.free_count() >= 1 {
        let j = lemma_free_in_witness(s.flags, s.flags.len() as int);
        lemma_first_fit_one(s.flags, 0, j);
    }
    if s.fit(1) is Some {
        if s.free_count() < 1 {
            lemma_exhaustion(s, 1);
        }
        let f = s.fit(1)->Some_0;
        lemma_first_fit_found(s.flags, 1, 0);
        lemma_free_in_taken(s.flags, f, s.flags.len() as int);
        lemma_allocated_wf(s.flags, f, 1);
    }
}

/// Releases every allocated run, leaving all descriptors cleared and the
/// memory as it was.
pub fn deallocate_all_pages(frames: &mut FrameAllocator)
    requires
        old(frames).wf(),
    ensures
        final(frames).wf(),
        final(frames)@ == (FramesView {
            flags: Seq::new(old(frames)@.flags.len(), |i: int| 0u8),
            ..old(frames)@
        }),
{
    let n = frames.num_frames();
    let mut i: usize = 0;
    while i < n
        invariant
            frames.wf(),
            n == frames@.num_frames(),
            i <= n,
            frames@.flags.len() == old(frames)@.flags.len(),
            frames@.memory == old(frames)@.memory,
            frames@.alloc_start == old(frames)@.alloc_start,
            frames@.heap_start == old(frames)@.heap_start,
            forall|j: int| 0 <= j < i ==> #[trigger] frames@.flags[j] == 0,
        decreases n - i,
    {
        if frames.flags(i) != 0 {
            let ghost f = frames@.flags;
            let address = frames.alloc_start() + PAGE_SIZE * i;
            proof {
                lemma_frame_of_address(frames@, i as int);
                lemma_run_end(f, i as int);
            }
            assert(frames@.frame_of(address as int) == i);
            assert(is_run_start(f, i as int));
            let _ = dealloc(frames, address);
            assert(frames@.flags == released(f, i as int));
            assert(frames@.flags[i as int] == 0);
        }
        i = i + 1;
    }
    assert(frames@.flags =~= Seq::new(old(frames)@.flags.len(), |i: int| 0u8));
}

/// The allocated runs from frame `i` on, as (first frame, number of frames)
/// pairs in ascending order.
pub open spec fn runs_from(flags: Seq<u8>, i: int) -> Seq<(int, int)>
    decreases flags.len() - i,
{
    if i < 0 || i >= flags.len() {
        seq![]
    } else if flags[i] == 0 {
        runs_from(flags, i + 1)
    } else {
        let e = run_end(flags, i);
        if e < i || e >= flags.len() {
            seq![]
        } else {
            seq![(i, e - i + 1)] + runs_from(flags, e + 1)
        }
    }
}

proof fn lemma_run_end_at_least(flags: Seq<u8>, i: int)
    requires
        0 <= i,
    ensures
        run_end(flags, i) >= i,
    decreases flags.len() - i,
{
    if i < flags.len() && flags[i] != TAKEN_LAST {
        lemma_run_end_at_least(flags, i + 1);
    }
}

impl FrameAllocator {
    /// The allocated runs, as (first frame, number of frames) pairs in
    /// ascending order.
    pub fn page_allocations(&self) -> (r: Vec<(usize, usize)>)
        requires
            self.wf(),
        ensures
            r@.len() == runs_from(self@.flags, 0).len(),
            forall|k: int|
                0 <= k < r@.len() ==> (#[trigger] r@[k]).0 as int == runs_from(self@.flags, 0)[k].0
                    && r@[k].1 as int == runs_from(self@.flags, 0)[k].1,
    {
        let ghost f = self@.flags;
        let n = self.pages.len();
        let mut r: Vec<(usize, usize)> = Vec::new();
        let ghost mut done: Seq<(int, int)> = seq![];
        let mut i: usize = 0;
        while i < n
            invariant
                self.wf(),
                f == self@.flags,
                n == f.len(),
                i <= n,
                i == 0 || f[i - 1] != TAKEN,
                runs_from(f, 0) == done + runs_from(f, i as int),
                r@.len() == done.len(),
                forall|k: int|
                    0 <= k < r@.len() ==> (#[trigger] r@[k]).0 as int == done[k].0 && r@[k].1 as int
                        == done[k].1,
            decreases n - i,
        {
            proof {
                lemma_flag_values(f[i as int]);
            }
            if self.pages[i].is_taken() {
                let start = i;
                proof {
                    lemma_run_end(f, i as int);
                }
                let ghost e = run_end(f, i as int);
                while !self.pages[i].is_last()
                    invariant
                        self.wf(),
                        f == self@.flags,
                        n == f.len(),
                        start <= i <= e,
                        e < n,
                        f[e] == TAKEN_LAST,
                        forall|j: int| start <= j < e ==> f[j] == TAKEN,
                    decreases e - i,
                {
                    proof {
                        lemma_flag_values(f[i as int]);
                    }
                    i = i + 1;
                }
                proof {
                    lemma_flag_values(f[i as int]);
                    if i < e {
                        assert(f[i as int] == TAKEN);
                    }
                }
                r.push((start, i - start + 1));
                proof {
                    let run = (start as int, e - start + 1);
                    assert(runs_from(f, start as int) == seq![run] + runs_from(f, e + 1));
                    assert(done + (seq![run] + runs_from(f, e + 1)) =~= (done + seq![run])
                        + runs_from(f, e + 1));
                    done = done + seq![run];
                }
                i = i + 1;
            } else {
                i = i + 1;
            }
        }
        assert(runs_from(f, n as int) == Seq::<(int, int)>::empty());
        assert(done + Seq::<(int, int)>::empty() =~= done);
        r
    }

    /// The number of free frames.
    pub fn free_frames(&self) -> (r: usize)
        requires
            self.wf(),
        ensures
            r == self@.free_count(),
    {
        let ghost f = self@.flags;
        let mut count: usize = 0;
        let mut i: usize = 0;
        while i < self.pages.len()
            invariant
                self.wf(),
                f == self@.flags,
                i <= f.len(),
                count == free_in(f, i as int),
                count <= i,
            decreases f.len() - i,
        {
            proof {
                lemma_flag_values(f[i as int]);
            }
            if self.pages[i].is_free() {
                count = count + 1;
            }
            i = i + 1;
        }
        count
    }
}

/// Frames `start .. start + count` form one allocated run.
pub open spec fn is_run(flags: Seq<u8>, start: int, count: int) -> bool {
    &&& 0 <= start
    &&& 1 <= count
    &&& start + count <= flags.len()
    &&& forall|k: int| start <= k < start + count - 1 ==> #[trigger] flags[k] == TAKEN
    &&& flags[start + count - 1] == TAKEN_LAST
}

proof fn lemma_run_end_of_run(flags: Seq<u8>, start: int, count: int, k: int)
    requires
        is_run(flags, start, count),
        start <= k < start + count,
    ensures
        run_end(flags, k) == start + count - 1,
    decreases start + count - k,
{
    if k < start + count - 1 {
        assert(flags[k] == TAKEN);
        lemma_run_end_of_run(flags, start, count, k + 1);
    }
}

/// Releasing a run clears exactly its frames.
proof fn lemma_release_run(flags: Seq<u8>, start: int, count: int)
    requires
        is_run(flags, start, count),
    ensures
        released(flags, start) == Seq::new(
            flags.len(),
            |k: int|
                if start <= k < start + count {
                    0u8
                } else {
                    flags[k]
                },
        ),
{
    lemma_run_end_of_run(flags, start, count, start);
    assert(released(flags, start) =~= Seq::new(
        flags.len(),
        |k: int|
            if start <= k < start + count {
                0u8
            } else {
                flags[k]
            },
    ));
}

/// Three neighbouring runs of `a`, `b` and `c` frames, released middle
/// first, then the first, then the last, are each accepted by `dealloc`, and
/// leave their frames as one free stretch, every other descriptor as it was;
/// a request for all their frames is then served at the first one's address
/// unless a free stretch as long starts lower.
pub proof fn lemma_release_three(s: FramesView, i: int, a: int, b: int, c: int)
    requires
        s.wf(),
        is_run(s.flags, i, a),
        is_run(s.flags, i + a, b),
        is_run(s.flags, i + a + b, c),
        i == 0 || s.flags[i - 1] != TAKEN,
    ensures
        ({
            let s1 = s.after_dealloc(i + a);
            let s2 = s1.after_dealloc(i);
            let s3 = s2.after_dealloc(i + a + b);
            &&& is_run_start(s.flags, i + a)
            &&& is_run_start(s1.flags, i)
            &&& is_run_start(s2.flags, i + a + b)
            &&& s3.memory == s.memory
            &&& forall|k: int|
                0 <= k < s.flags.len() ==> #[trigger] s3.flags[k] == if i <= k < i + a + b + c {
                    0
                } else {
                    s.flags[k]
                }
            &&& is_free_run(s3.flags, i, a + b + c)
            &&& (forall|j: int| 0 <= j < i ==> !#[trigger] is_free_run(s3.flags, j, a + b + c)) ==> s3.fit(a + b + c)
                == Some(i)
        }),
{
    let s1 = s.after_dealloc(i + a);
    let s2 = s1.after_dealloc(i);
    let s3 = s2.after_dealloc(i + a + b);
    lemma_release_run(s.flags, i + a, b);
    assert(is_run(s1.flags, i, a));
    lemma_release_run(s1.flags, i, a);
    assert(is_run(s2.flags, i + a + b, c));
    lemma_release_run(s2.flags, i + a + b, c);
    lemma_first_fit_from(s3.flags, a + b + c, i, 0);
}

proof fn lemma_first_fit_from(flags: Seq<u8>, count: int, i: int, j: int)
    requires
        0 <= j <= i,
        is_free_run(flags, i, count),
    ensures
        (forall|q: int| 0 <= q < i ==> !#[trigger] is_free_run(flags, q, count)) ==> first_fit(flags, count, j)
            == Some(i),
    decreases i - j,
{
    if j < i {
        lemma_first_fit_from(flags, count, i, j + 1);
    }
}

} // verus!
