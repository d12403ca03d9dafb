//! Kernel heap: a byte-granular, first-fit allocator over an arena of frames.
//! The arena is a chain of blocks, each opening with a one-word header that
//! holds the block's total size and, in its top bit, whether it is taken.
use vstd::prelude::*;

use crate::page::{zalloc, FrameAllocator, FramesView, MemoryError, PAGE_SIZE};

verus! {

/// Header bit: the block is taken.
pub const TAKEN_BIT: u64 = 0x8000_0000_0000_0000;

/// Size of a block header in bytes.
pub const HEADER_SIZE: usize = 8;

/// Number of frames the heap reserves at `init`.
pub const KERNEL_HEAP_PAGES: usize = 64;

/// One block of the chain, as a mathematical value.
pub struct Block {
    pub taken: bool,
    pub size: nat,
}

/// The header word of a block.
pub open spec fn header(b: Block) -> u64 {
    (b.size + if b.taken {
        TAKEN_BIT as int
    } else {
        0
    }) as u64
}

/// Where block `i` starts, counted in bytes from the start of the arena.
pub open spec fn offset(blocks: Seq<Block>, i: int) -> int
    decreases i,
{
    if i <= 0 {
        0
    } else {
        offset(blocks, i - 1) + blocks[i - 1].size
    }
}

/// Rounds `n` up to a multiple of 8.
pub open spec fn align8(n: int) -> int {
    ((n + 7) / 8) * 8
}

/// The bytes a request for `n` bytes occupies: its size rounded up to a
/// multiple of 8, and a header.
pub open spec fn block_need(n: int) -> int {
    align8(n) + HEADER_SIZE
}

/// The first block, from block `from` on, that is free and holds `need` bytes.
pub open spec fn first_block(blocks: Seq<Block>, need: int, from: int) -> Option<int>
    decreases blocks.len() - from,
{
    if from < 0 || from >= blocks.len() {
        None
    } else if !blocks[from].taken && blocks[from].size >= need {
        Some(from)
    } else {
        first_block(blocks, need, from + 1)
    }
}

/// The chain after block `i` is handed out for `need` bytes: split when the
/// remainder exceeds a header, taken whole otherwise.
pub open spec fn split(blocks: Seq<Block>, i: int, need: int) -> Seq<Block> {
    let b = blocks[i];
    if b.size - need > HEADER_SIZE {
        blocks.subrange(0, i) + seq![
            Block { taken: true, size: need as nat },
            Block { taken: false, size: (b.size - need) as nat },
        ] + blocks.subrange(i + 1, blocks.len() as int)
    } else {
        blocks.update(i, Block { taken: true, size: b.size })
    }
}

/// One left-to-right sweep that merges every free block with the free
/// blocks that follow it.
pub open spec fn coalesced(blocks: Seq<Block>) -> Seq<Block>
    decreases blocks.len(),
{
    if blocks.len() <= 1 {
        blocks
    } else if !blocks[0].taken && !blocks[1].taken {
        coalesced(
            seq![Block { taken: false, size: blocks[0].size + blocks[1].size }] + blocks.subrange(
                2,
                blocks.len() as int,
            ),
        )
    } else {
        seq![blocks[0]] + coalesced(blocks.subrange(1, blocks.len() as int))
    }
}

/// The chain after the block at index `i` is freed and the chain coalesced.
pub open spec fn after_free(blocks: Seq<Block>, i: int) -> Seq<Block> {
    coalesced(blocks.update(i, Block { taken: false, size: blocks[i].size }))
}

/// The number of bytes in free blocks.
pub open spec fn free_bytes(blocks: Seq<Block>) -> int
    decreases blocks.len(),
{
    if blocks.len() == 0 {
        0
    } else {
        free_bytes(blocks.drop_last()) + if blocks.last().taken {
            0
        } else {
            blocks.last().size as int
        }
    }
}

/// Word `w` holds the header of a block of `blocks` laid from `head`.
pub open spec fn is_header_word(s: FramesView, head: int, blocks: Seq<Block>, w: int) -> bool {
    exists|j: int| 0 <= j < blocks.len() && w == s.word_index(head + #[trigger] offset(blocks, j))
}

/// The offset `o` is where a block of `blocks` starts.
pub open spec fn is_start(blocks: Seq<Block>, o: int) -> bool {
    exists|k: int| 0 <= k < blocks.len() && #[trigger] offset(blocks, k) == o
}

/// Every word that differs from `s` to `s2` holds a header of the chain
/// `before` or of the chain `after`, both laid from `head`.
pub open spec fn headers_only(
    s: FramesView,
    s2: FramesView,
    head: int,
    before: Seq<Block>,
    after: Seq<Block>,
) -> bool {
    &&& s2.memory.len() == s.memory.len()
    &&& forall|w: int|
        0 <= w < s.memory.len() && #[trigger] s2.memory[w] != s.memory[w] ==> is_header_word(
            s,
            head,
            before,
            w,
        ) || is_header_word(s, head, after, w)
}

/// The heap as mathematical values: where its arena starts, its size in
/// bytes, and its chain of blocks.
pub struct HeapView {
    pub head: int,
    pub size: int,
    pub blocks: Seq<Block>,
}

impl HeapView {
    /// The chain tiles the arena, and the header word of each block, read from
    /// `s`, holds the block's size and taken flag.
    pub open spec fn wf(self, s: FramesView) -> bool {
        &&& s.wf()
        &&& s.alloc_start <= self.head
        &&& self.head + self.size <= s.alloc_start + s.num_frames() * PAGE_SIZE
        &&& (self.head - s.alloc_start) % 8 == 0
        &&& self.size < TAKEN_BIT
        &&& self.blocks.len() >= 1
        &&& forall|i: int|
            0 <= i < self.blocks.len() ==> #[trigger] self.blocks[i].size >= HEADER_SIZE
                && self.blocks[i].size % 8 == 0
        &&& offset(self.blocks, self.blocks.len() as int) == self.size
        &&& forall|i: int|
            0 <= i < self.blocks.len() ==> s.word(self.head + #[trigger] offset(self.blocks, i))
                == header(self.blocks[i])
    }

    /// The address of the payload of block `i`.
    pub open spec fn payload(self, i: int) -> int {
        self.head + offset(self.blocks, i) + HEADER_SIZE
    }

    /// `address` is the payload address of block `i`.
    pub open spec fn is_payload_of(self, i: int, address: int) -> bool {
        0 <= i < self.blocks.len() && self.payload(i) == address
    }
}

/// The kernel heap: an arena of frames and the chain of blocks laid over it.
pub struct KernelHeap {
    head: usize,
    pages: usize,
    blocks: Ghost<Seq<Block>>,
}

impl View for KernelHeap {
    type V = HeapView;

    closed spec fn view(&self) -> HeapView {
        HeapView {
            head: self.head as int,
            size: self.pages * PAGE_SIZE,
            blocks: self.blocks@,
        }
    }
}

proof fn lemma_offsets(blocks: Seq<Block>, i: int, j: int)
    requires
        0 <= i <= j <= blocks.len(),
        forall|k: int| 0 <= k < blocks.len() ==> #[trigger] blocks[k].size >= HEADER_SIZE && blocks[k].size % 8 == 0,
    ensures
        offset(blocks, i) <= offset(blocks, j),
        i < j ==> offset(blocks, i) + blocks[i].size <= offset(blocks, j),
        offset(blocks, j) % 8 == 0,
        offset(blocks, j) >= 8 * j,
    decreases j,
{
    if j > 0 {
        if i < j {
            lemma_offsets(blocks, i, j - 1);
        } else {
            lemma_offsets(blocks, i - 1, j - 1);
        }
        lemma_offsets(blocks, j - 1, j - 1);
    }
}

proof fn lemma_first_block_step(blocks: Seq<Block>, need: int, from: int)
    requires
        0 <= from < blocks.len(),
        blocks[from].taken || blocks[from].size < need,
    ensures
        first_block(blocks, need, from) == first_block(blocks, need, from + 1),
{
}

proof fn lemma_first_block_found(blocks: Seq<Block>, need: int, from: int)
    requires
        first_block(blocks, need, from) is Some,
    ensures
        ({
            let i = first_block(blocks, need, from)->Some_0;
            &&& from <= i < blocks.len()
            &&& !blocks[i].taken
            &&& blocks[i].size >= need
        }),
    decreases blocks.len() - from,
{
    if !(!blocks[from].taken && blocks[from].size >= need) {
        lemma_first_block_found(blocks, need, from + 1);
    }
}

proof fn lemma_first_block_too_large(blocks: Seq<Block>, need: int, from: int)
    requires
        0 <= from,
        forall|k: int| 0 <= k < blocks.len() ==> #[trigger] blocks[k].size < need,
    ensures
        first_block(blocks, need, from) is None,
    decreases blocks.len() - from,
{
    if from < blocks.len() {
        lemma_first_block_too_large(blocks, need, from + 1);
    }
}

proof fn lemma_header_bits(size: nat, taken: bool)
    requires
        size < TAKEN_BIT,
    ensures
        (header(Block { taken, size }) & TAKEN_BIT != 0) == taken,
        header(Block { taken, size }) & !TAKEN_BIT == size,
{
    let h = header(Block { taken, size });
    let s = size as u64;
    if taken {
        assert(h == s + 0x8000_0000_0000_0000u64);
        assert(s < 0x8000_0000_0000_0000u64 ==> (((s + 0x8000_0000_0000_0000u64) as u64)
            & 0x8000_0000_0000_0000u64 != 0) && (((s + 0x8000_0000_0000_0000u64) as u64)
            & !0x8000_0000_0000_0000u64 == s)) by (bit_vector);
    } else {
        assert(h == s);
        assert(s < 0x8000_0000_0000_0000u64 ==> (s & 0x8000_0000_0000_0000u64 == 0) && (s
            & !0x8000_0000_0000_0000u64 == s)) by (bit_vector);
    }
}

proof fn lemma_offset_concat(a: Seq<Block>, b: Seq<Block>, j: int)
    requires
        0 <= j <= a.len() + b.len(),
    ensures
        j <= a.len() ==> offset(a + b, j) == offset(a, j),
        j >= a.len() ==> offset(a + b, j) == offset(a, a.len() as int) + offset(b, j - a.len()),
    decreases j,
{
    if j > 0 {
        lemma_offset_concat(a, b, j - 1);
    }
}

proof fn lemma_offset_prefix(a: Seq<Block>, n: int, j: int)
    requires
        0 <= j <= n <= a.len(),
    ensures
        offset(a.subrange(0, n), j) == offset(a, j),
    decreases j,
{
    if j > 0 {
        lemma_offset_prefix(a, n, j - 1);
    }
}

proof fn lemma_offset_split(a: Seq<Block>, n: int, j: int)
    requires
        0 <= n <= j <= a.len(),
    ensures
        offset(a, j) == offset(a, n) + offset(a.subrange(n, a.len() as int), j - n),
    decreases j,
{
    if j > n {
        lemma_offset_split(a, n, j - 1);
    }
}

/// Two distinct header addresses of the arena name distinct words.
proof fn lemma_distinct_words(s: FramesView, a: int, b: int)
    requires
        (a - s.alloc_start) % 8 == 0,
        (b - s.alloc_start) % 8 == 0,
        a != b,
    ensures
        s.word_index(a) != s.word_index(b),
{
    vstd::arithmetic::div_mod::lemma_fundamental_div_mod(a - s.alloc_start, 8);
    vstd::arithmetic::div_mod::lemma_fundamental_div_mod(b - s.alloc_start, 8);
}

/// Blocks `i .. i + k` of a well-formed chain replaced by `mid`, which spans
/// the same bytes and whose headers are written, give a well-formed chain.
proof fn lemma_chain_replace(h: HeapView, s: FramesView, s2: FramesView, i: int, k: int, mid: Seq<Block>)
    requires
        h.wf(s),
        s2.wf(),
        s2.alloc_start == s.alloc_start,
        s2.flags.len() == s.flags.len(),
        0 <= i,
        1 <= k,
        i + k <= h.blocks.len(),
        mid.len() >= 1,
        offset(mid, mid.len() as int) == offset(h.blocks, i + k) - offset(h.blocks, i),
        forall|m: int| 0 <= m < mid.len() ==> #[trigger] mid[m].size >= HEADER_SIZE && mid[m].size % 8 == 0,
        forall|m: int|
            0 <= m < mid.len() ==> s2.word(h.head + offset(h.blocks, i) + #[trigger] offset(mid, m))
                == header(mid[m]),
        forall|j: int|
            0 <= j < h.blocks.len() && (j < i || j >= i + k) ==> s2.word(h.head + #[trigger] offset(
                h.blocks,
                j,
            )) == s.word(h.head + offset(h.blocks, j)),
    ensures
        ({
            let nb = h.blocks.subrange(0, i) + mid + h.blocks.subrange(i + k, h.blocks.len() as int);
            &&& (HeapView { blocks: nb, ..h }).wf(s2)
            &&& offset(nb, i) == offset(h.blocks, i)
            &&& forall|j: int| 0 <= j <= i ==> #[trigger] offset(nb, j) == offset(h.blocks, j)
            &&& forall|j: int|
                0 <= j <= mid.len() ==> #[trigger] offset(nb, i + j) == offset(h.blocks, i) + offset(mid, j)
            &&& forall|j: int|
                i + mid.len() <= j <= nb.len() ==> #[trigger] offset(nb, j) == offset(
                    h.blocks,
                    j - mid.len() + k,
                )
        }),
{
    let bs = h.blocks;
    let p = bs.subrange(0, i);
    let q = bs.subrange(i + k, bs.len() as int);
    let pm = p + mid;
    let nb = pm + q;
    let n = bs.len() as int;
    let m = mid.len() as int;
    assert forall|j: int| 0 <= j <= i implies #[trigger] offset(nb, j) == offset(bs, j) by {
        lemma_offset_concat(pm, q, j);
        lemma_offset_concat(p, mid, j);
        lemma_offset_prefix(bs, i, j);
    }
    assert forall|j: int| 0 <= j <= m implies #[trigger] offset(nb, i + j) == offset(bs, i) + offset(mid, j) by {
        lemma_offset_concat(pm, q, i + j);
        lemma_offset_concat(p, mid, i + j);
        lemma_offset_prefix(bs, i, i);
    }
    assert forall|j: int| i + m <= j <= nb.len() implies #[trigger] offset(nb, j) == offset(bs, j - m + k) by {
        lemma_offset_concat(pm, q, j);
        lemma_offset_concat(p, mid, i + m);
        lemma_offset_prefix(bs, i, i);
        lemma_offset_split(bs, i + k, j - m + k);
        assert(bs.subrange(i + k, n) =~= q);
    }
    assert forall|j: int| 0 <= j < nb.len() implies #[trigger] nb[j].size >= HEADER_SIZE && nb[j].size % 8 == 0 by {
        if j < i {
            assert(nb[j] == bs[j]);
        } else if j < i + m {
            assert(nb[j] == mid[j - i]);
        } else {
            assert(nb[j] == bs[j - m + k]);
        }
    }
    assert forall|j: int| 0 <= j < nb.len() implies s2.word(h.head + #[trigger] offset(nb, j)) == header(nb[j]) by {
        if j < i {
            assert(nb[j] == bs[j]);
        } else if j < i + m {
            assert(nb[j] == mid[j - i]);
            assert(offset(nb, i + (j - i)) == offset(bs, i) + offset(mid, j - i));
        } else {
            assert(nb[j] == bs[j - m + k]);
        }
    }
    assert(offset(nb, nb.len() as int) == offset(bs, n));
}

/// Reads the header of block `i`, which starts at `address`.
fn read_header(frames: &FrameAllocator, h: Ghost<HeapView>, address: usize, i: Ghost<int>) -> (r: (
    bool,
    usize,
))
    requires
        h@.wf(frames@),
        0 <= i@ < h@.blocks.len(),
        address == h@.head + offset(h@.blocks, i@),
    ensures
        r.0 == h@.blocks[i@].taken,
        r.1 == h@.blocks[i@].size,
{
    proof {
        lemma_offsets(h@.blocks, i@, h@.blocks.len() as int);
        lemma_offsets(h@.blocks, i@, i@);
        lemma_header_bits(h@.blocks[i@].size, h@.blocks[i@].taken);
        vstd::arithmetic::div_mod::lemma_mod_adds(
            h@.head - frames@.alloc_start,
            offset(h@.blocks, i@),
            8,
        );
    }
    let w = frames.read_word(address);
    (w & TAKEN_BIT != 0, (w & !TAKEN_BIT) as usize)
}

/// The header word for a block of `size` bytes.
fn header_word(taken: bool, size: usize) -> (r: u64)
    requires
        size < TAKEN_BIT,
    ensures
        r == header(Block { taken, size: size as nat }),
{
    if taken {
        size as u64 + TAKEN_BIT
    } else {
        size as u64
    }
}

impl KernelHeap {
    pub open spec fn wf(&self, frames: &FrameAllocator) -> bool {
        self@.wf(frames@)
    }

    /// Address of the arena.
    pub fn head(&self) -> (r: usize)
        ensures
            r == self@.head,
    {
        self.head
    }

    /// Number of frames in the arena.
    pub fn pages(&self) -> (r: usize)
        ensures
            r * PAGE_SIZE == self@.size,
    {
        self.pages
    }

    /// Reserves `KERNEL_HEAP_PAGES` zeroed frames from `frames` and lays a
    /// single free block over all of them; `None` where the frames cannot be had.
    pub fn init(frames: &mut FrameAllocator) -> (r: Option<KernelHeap>)
        requires
            old(frames).wf(),
        ensures
            final(frames).wf(),
            final(frames)@.flags == old(frames)@.after_zalloc(KERNEL_HEAP_PAGES as int).flags,
            final(frames)@.alloc_start == old(frames)@.alloc_start,
            final(frames)@.heap_start == old(frames)@.heap_start,
            r is Some <==> old(frames)@.alloc_address(KERNEL_HEAP_PAGES as int) is Some,
            r is Some ==> {
                let h = r->Some_0@;
                &&& h.wf(final(frames)@)
                &&& h.head == old(frames)@.alloc_address(KERNEL_HEAP_PAGES as int)->Some_0
                &&& h.size == KERNEL_HEAP_PAGES * PAGE_SIZE
                &&& h.blocks == seq![Block { taken: false, size: (KERNEL_HEAP_PAGES * PAGE_SIZE) as nat }]
            },
    {
        let ghost s0 = frames@;
        match zalloc(frames, KERNEL_HEAP_PAGES) {
            None => None,
            Some(head) => {
                let ghost f = s0.fit(KERNEL_HEAP_PAGES as int)->Some_0;
                proof {
                    crate::page::lemma_first_fit_found(s0.flags, KERNEL_HEAP_PAGES as int, 0);
                    crate::page::lemma_frame_of_address(s0, f);
                    vstd::arithmetic::div_mod::lemma_mod_multiples_basic(f * 512, 8);
                }
                let size = KERNEL_HEAP_PAGES * PAGE_SIZE;
                assert(head - frames@.alloc_start == (f * 512) * 8);
                let word = header_word(false, size);
                frames.write_word(head, word);
                let ghost blocks = seq![Block { taken: false, size: size as nat }];
                let heap = KernelHeap { head, pages: KERNEL_HEAP_PAGES, blocks: Ghost(blocks) };
                proof {
                    assert(offset(blocks, 0) == 0);
                    assert(offset(blocks, 1) == size);
                }
                assert(heap@.wf(frames@));
                Some(heap)
            },
        }
    }
}

impl KernelHeap {
    /// Marks block `i`, which starts at `cur`, as taken for `need` bytes,
    /// splitting off the remainder as a free block where it exceeds a header.
    fn take_block(&mut self, frames: &mut FrameAllocator, cur: usize, i: Ghost<int>, bsize: usize, need: usize)
        requires
            old(self).wf(old(frames)),
            0 <= i@ < old(self)@.blocks.len(),
            cur == old(self)@.head + offset(old(self)@.blocks, i@),
            bsize == old(self)@.blocks[i@].size,
            !old(self)@.blocks[i@].taken,
            HEADER_SIZE <= need <= bsize,
            need % 8 == 0,
        ensures
            final(self).wf(final(frames)),
            final(self)@ == (HeapView { blocks: split(old(self)@.blocks, i@, need as int), ..old(self)@ }),
            headers_only(
                old(frames)@,
                final(frames)@,
                old(self)@.head,
                old(self)@.blocks,
                split(old(self)@.blocks, i@, need as int),
            ),
            final(frames)@.flags == old(frames)@.flags,
            final(frames)@.alloc_start == old(frames)@.alloc_start,
            final(frames)@.heap_start == old(frames)@.heap_start,
    {
        let ghost h = self@;
        let ghost bs = h.blocks;
        let ghost n = bs.len() as int;
        let ghost i = i@;
        let ghost s0 = frames@;
        proof {
            lemma_offsets(bs, i, n);
            lemma_offsets(bs, i + 1, n);
            lemma_offsets(bs, 0, i);
            lemma_offsets(bs, i, i + 1);
            vstd::arithmetic::div_mod::lemma_mod_adds(h.head - s0.alloc_start, offset(bs, i), 8);
        }
        let remainder = bsize - need;
        if remainder > HEADER_SIZE {
            let w1 = header_word(true, need);
            frames.write_word(cur, w1);
            let ghost s1 = frames@;
            proof {
                vstd::arithmetic::div_mod::lemma_mod_adds(cur - s0.alloc_start, need as int, 8);
            }
            let w2 = header_word(false, remainder);
            frames.write_word(cur + need, w2);
            let ghost mid = seq![
                Block { taken: true, size: need as nat },
                Block { taken: false, size: remainder as nat },
            ];
            proof {
                assert(offset(mid, 0) == 0);
                assert(offset(mid, 1) == need);
                assert(offset(mid, 2) == bsize);
                lemma_distinct_words(s0, cur as int, cur + need);
                assert forall|j: int| 0 <= j < n && (j < i || j >= i + 1) implies frames@.word(
                    h.head + #[trigger] offset(bs, j),
                ) == s0.word(h.head + offset(bs, j)) by {
                    if j < i {
                        lemma_offsets(bs, j, i);
                    } else {
                        lemma_offsets(bs, i + 1, j);
                    }
                    lemma_offsets(bs, j, j);
                    lemma_offsets(bs, j, n);
                    lemma_offsets(bs, 0, j);
                    vstd::arithmetic::div_mod::lemma_mod_adds(h.head - s0.alloc_start, offset(bs, j), 8);
                    let x = h.head + offset(bs, j);
                    lemma_distinct_words(s0, cur as int, x);
                    lemma_distinct_words(s0, cur + need, x);
                    assert(s1.word(x) == s0.word(x));
                }
                lemma_chain_replace(h, s0, frames@, i, 1, mid);
                let nb = split(bs, i, need as int);
                assert(nb =~= bs.subrange(0, i) + mid + bs.subrange(i + 1, n));
                assert(offset(nb, i + 1) == offset(bs, i) + offset(mid, 1));
                assert forall|w: int| 0 <= w < s0.memory.len() && #[trigger] frames@.memory[w] != s0.memory[w]
                    implies is_header_word(s0, h.head, bs, w) || is_header_word(s0, h.head, nb, w) by {
                    if w == s0.word_index(cur as int) {
                        assert(w == s0.word_index(h.head + offset(bs, i)));
                    } else {
                        assert(w == s0.word_index(h.head + offset(nb, i + 1)));
                    }
                }
            }
            self.blocks = Ghost(split(bs, i, need as int));
        } else {
            let w1 = header_word(true, bsize);
            frames.write_word(cur, w1);
            let ghost mid = seq![Block { taken: true, size: bsize as nat }];
            proof {
                assert(offset(mid, 0) == 0);
                assert(offset(mid, 1) == bsize);
                assert forall|j: int| 0 <= j < n && (j < i || j >= i + 1) implies frames@.word(
                    h.head + #[trigger] offset(bs, j),
                ) == s0.word(h.head + offset(bs, j)) by {
                    if j < i {
                        lemma_offsets(bs, j, i);
                    } else {
                        lemma_offsets(bs, i + 1, j);
                    }
                    lemma_offsets(bs, j, j);
                    lemma_offsets(bs, j, n);
                    lemma_offsets(bs, 0, j);
                    vstd::arithmetic::div_mod::lemma_mod_adds(h.head - s0.alloc_start, offset(bs, j), 8);
                    lemma_distinct_words(s0, cur as int, h.head + offset(bs, j));
                }
                lemma_chain_replace(h, s0, frames@, i, 1, mid);
                assert(split(bs, i, need as int) =~= bs.subrange(0, i) + mid + bs.subrange(i + 1, n));
                assert forall|w: int| 0 <= w < s0.memory.len() && #[trigger] frames@.memory[w] != s0.memory[w]
                    implies is_header_word(s0, h.head, bs, w) by {
                    assert(w == s0.word_index(h.head + offset(bs, i)));
                }
            }
            self.blocks = Ghost(split(bs, i, need as int));
        }
    }

    /// Hands out the first block, by address, that is free and holds the
    /// request rounded up to 8 bytes plus a header. The block is split where
    /// more than a header's worth would be left over, and taken whole
    /// otherwise. Returns the address just past the block's header, or
    /// `None`, changing nothing, when no block fits.
    pub fn kernel_malloc(&mut self, frames: &mut FrameAllocator, size: usize) -> (r: Option<usize>)
        requires
            old(self).wf(old(frames)),
        ensures
            final(self).wf(final(frames)),
            final(self)@.head == old(self)@.head,
            final(self)@.size == old(self)@.size,
            final(frames)@.flags == old(frames)@.flags,
            final(frames)@.alloc_start == old(frames)@.alloc_start,
            final(frames)@.heap_start == old(frames)@.heap_start,
            match first_block(old(self)@.blocks, block_need(size as int), 0) {
                None => r is None && final(self)@ == old(self)@ && final(frames)@ == old(frames)@,
                Some(i) => r == Some(old(self)@.payload(i) as usize) && final(self)@.blocks == split(
                    old(self)@.blocks,
                    i,
                    block_need(size as int),
                ) && headers_only(
                    old(frames)@,
                    final(frames)@,
                    old(self)@.head,
                    old(self)@.blocks,
                    final(self)@.blocks,
                ),
            },
    {
        let ghost h = self@;
        let ghost bs = h.blocks;
        let ghost n = bs.len() as int;
        proof {
            lemma_offsets(bs, 0, n);
        }
        let total = self.pages * PAGE_SIZE;
        assert(total == h.size);
        if size > total {
            proof {
                assert(align8(size as int) >= size) by (nonlinear_arith);
                assert forall|k: int| 0 <= k < n implies #[trigger] bs[k].size < block_need(size as int) by {
                    lemma_offsets(bs, k, n);
                    lemma_offsets(bs, 0, k);
                }
                lemma_first_block_too_large(bs, block_need(size as int), 0);
            }
            return None;
        }
        let need = (size + 7) / 8 * 8 + HEADER_SIZE;
        assert(need == block_need(size as int));
        assert(need % 8 == 0) by {
            vstd::arithmetic::div_mod::lemma_mod_multiples_basic((size as int + 7) / 8 + 1, 8);
        }
        let end = self.head + total;
        let mut cur = self.head;
        let ghost mut i: int = 0;
        while cur < end
            invariant
                self@ == h,
                h == old(self)@,
                self.head == old(self).head,
                self.pages == old(self).pages,
                need % 8 == 0,
                frames@ == old(frames)@,
                h.wf(frames@),
                bs == h.blocks,
                n == bs.len(),
                end == h.head + h.size,
                need == block_need(size as int),
                0 <= i <= n,
                cur == h.head + offset(bs, i),
                i < n <==> cur < end,
                first_block(bs, need as int, 0) == first_block(bs, need as int, i),
            decreases end - cur,
        {
            proof {
                lemma_offsets(bs, i, n);
                lemma_offsets(bs, i + 1, n);
                lemma_offsets(bs, 0, i);
            }
            let (taken, bsize) = read_header(frames, Ghost(h), cur, Ghost(i));
            if !taken && need <= bsize {
                self.take_block(frames, cur, Ghost(i), bsize, need);
                assert(first_block(bs, need as int, i) == Some(i));
                assert(first_block(old(self)@.blocks, block_need(size as int), 0) == Some(i));
                assert(self@.blocks == split(bs, i, need as int));
                assert(cur + HEADER_SIZE == old(self)@.payload(i));
                return Some(cur + HEADER_SIZE);
            }
            proof {
                lemma_first_block_step(bs, need as int, i);
            }
            cur = cur + bsize;
            proof {
                i = i + 1;
            }
        }
        None
    }
}

/// Distinct blocks have distinct payload addresses.
proof fn lemma_payload_unique(blocks: Seq<Block>, i: int, j: int)
    requires
        0 <= i < blocks.len(),
        0 <= j < blocks.len(),
        i != j,
        forall|k: int| 0 <= k < blocks.len() ==> #[trigger] blocks[k].size >= HEADER_SIZE && blocks[k].size % 8 == 0,
    ensures
        offset(blocks, i) != offset(blocks, j),
{
    if i < j {
        lemma_offsets(blocks, i, j);
    } else {
        lemma_offsets(blocks, j, i);
    }
}

impl KernelHeap {
    /// Rewrites the header of block `i`, which starts at `cur`, keeping its size.
    fn set_taken(&mut self, frames: &mut FrameAllocator, cur: usize, i: Ghost<int>, taken: bool, size: usize)
        requires
            old(self).wf(old(frames)),
            0 <= i@ < old(self)@.blocks.len(),
            cur == old(self)@.head + offset(old(self)@.blocks, i@),
            size == old(self)@.blocks[i@].size,
        ensures
            final(self).wf(final(frames)),
            final(self)@ == (HeapView {
                blocks: old(self)@.blocks.update(i@, Block { taken, size: size as nat }),
                ..old(self)@
            }),
            headers_only(old(frames)@, final(frames)@, old(self)@.head, old(self)@.blocks, old(self)@.blocks),
            final(frames)@.flags == old(frames)@.flags,
            final(frames)@.alloc_start == old(frames)@.alloc_start,
            final(frames)@.heap_start == old(frames)@.heap_start,
    {
        let ghost h = self@;
        let ghost bs = h.blocks;
        let ghost n = bs.len() as int;
        let ghost i = i@;
        let ghost s0 = frames@;
        proof {
            lemma_offsets(bs, i, n);
            lemma_offsets(bs, 0, i);
            lemma_offsets(bs, i, i);
            vstd::arithmetic::div_mod::lemma_mod_adds(h.head - s0.alloc_start, offset(bs, i), 8);
        }
        let w = header_word(taken, size);
        frames.write_word(cur, w);
        let ghost mid = seq![Block { taken, size: size as nat }];
        proof {
            assert(offset(mid, 0) == 0);
            assert(offset(mid, 1) == size);
            lemma_offsets(bs, i, i + 1);
            assert forall|j: int| 0 <= j < n && (j < i || j >= i + 1) implies frames@.word(
                h.head + #[trigger] offset(bs, j),
            ) == s0.word(h.head + offset(bs, j)) by {
                lemma_payload_unique(bs, i, j);
                lemma_offsets(bs, j, j);
                lemma_offsets(bs, j, n);
                lemma_offsets(bs, 0, j);
                vstd::arithmetic::div_mod::lemma_mod_adds(h.head - s0.alloc_start, offset(bs, j), 8);
                lemma_distinct_words(s0, cur as int, h.head + offset(bs, j));
            }
            lemma_chain_replace(h, s0, frames@, i, 1, mid);
            assert(bs.update(i, Block { taken, size: size as nat }) =~= bs.subrange(0, i) + mid
                + bs.subrange(i + 1, n));
            assert forall|v: int| 0 <= v < s0.memory.len() && #[trigger] frames@.memory[v] != s0.memory[v]
                implies is_header_word(s0, h.head, bs, v) by {
                assert(v == s0.word_index(h.head + offset(bs, i)));
            }
        }
        self.blocks = Ghost(bs.update(i, Block { taken, size: size as nat }));
    }

    /// Merges block `i`, which starts at `cur`, with block `i + 1`; both are free.
    fn merge_next(&mut self, frames: &mut FrameAllocator, cur: usize, i: Ghost<int>, size: usize, next_size: usize)
        requires
            old(self).wf(old(frames)),
            0 <= i@ < old(self)@.blocks.len() - 1,
            cur == old(self)@.head + offset(old(self)@.blocks, i@),
            size == old(self)@.blocks[i@].size,
            next_size == old(self)@.blocks[i@ + 1].size,
        ensures
            final(self).wf(final(frames)),
            final(self)@ == (HeapView {
                blocks: old(self)@.blocks.subrange(0, i@) + seq![Block { taken: false, size: (size + next_size) as nat }]
                    + old(self)@.blocks.subrange(i@ + 2, old(self)@.blocks.len() as int),
                ..old(self)@
            }),
            headers_only(old(frames)@, final(frames)@, old(self)@.head, old(self)@.blocks, old(self)@.blocks),
            forall|j: int| 0 <= j <= i@ ==> #[trigger] offset(final(self)@.blocks, j) == offset(old(self)@.blocks, j),
            forall|j: int|
                i@ + 1 <= j <= final(self)@.blocks.len() ==> #[trigger] offset(final(self)@.blocks, j) == offset(
                    old(self)@.blocks,
                    j + 1,
                ),
            final(frames)@.flags == old(frames)@.flags,
            final(frames)@.alloc_start == old(frames)@.alloc_start,
            final(frames)@.heap_start == old(frames)@.heap_start,
    {
        let ghost h = self@;
        let ghost bs = h.blocks;
        let ghost n = bs.len() as int;
        let ghost i = i@;
        let ghost s0 = frames@;
        proof {
            lemma_offsets(bs, i, n);
            lemma_offsets(bs, 0, i);
            lemma_offsets(bs, i, i);
            lemma_offsets(bs, i + 1, n);
            lemma_offsets(bs, i, i + 1);
            lemma_offsets(bs, i + 1, i + 2);
            vstd::arithmetic::div_mod::lemma_mod_adds(h.head - s0.alloc_start, offset(bs, i), 8);
        }
        let w = header_word(false, size + next_size);
        frames.write_word(cur, w);
        let ghost mid = seq![Block { taken: false, size: (size + next_size) as nat }];
        proof {
            assert(offset(mid, 0) == 0);
            assert(offset(mid, 1) == size + next_size);
            assert forall|j: int| 0 <= j < n && (j < i || j >= i + 2) implies frames@.word(
                h.head + #[trigger] offset(bs, j),
            ) == s0.word(h.head + offset(bs, j)) by {
                lemma_payload_unique(bs, i, j);
                lemma_offsets(bs, j, j);
                lemma_offsets(bs, j, n);
                lemma_offsets(bs, 0, j);
                vstd::arithmetic::div_mod::lemma_mod_adds(h.head - s0.alloc_start, offset(bs, j), 8);
                lemma_distinct_words(s0, cur as int, h.head + offset(bs, j));
            }
            lemma_chain_replace(h, s0, frames@, i, 2, mid);
            assert forall|v: int| 0 <= v < s0.memory.len() && #[trigger] frames@.memory[v] != s0.memory[v]
                implies is_header_word(s0, h.head, bs, v) by {
                assert(v == s0.word_index(h.head + offset(bs, i)));
            }
        }
        self.blocks = Ghost(bs.subrange(0, i) + mid + bs.subrange(i + 2, n));
    }

    /// One left-to-right pass over the chain: a free block followed by a free
    /// block absorbs it and is examined again against its new successor.
    pub fn coalesce(&mut self, frames: &mut FrameAllocator)
        requires
            old(self).wf(old(frames)),
        ensures
            final(self).wf(final(frames)),
            final(self)@ == (HeapView { blocks: coalesced(old(self)@.blocks), ..old(self)@ }),
            headers_only(old(frames)@, final(frames)@, old(self)@.head, old(self)@.blocks, old(self)@.blocks),
            final(frames)@.flags == old(frames)@.flags,
            final(frames)@.alloc_start == old(frames)@.alloc_start,
            final(frames)@.heap_start == old(frames)@.heap_start,
    {
        let ghost h0 = self@;
        proof {
            lemma_offsets(h0.blocks, 0, h0.blocks.len() as int);
        }
        let end = self.head + self.pages * PAGE_SIZE;
        let mut cur = self.head;
        let ghost mut i: int = 0;
        assert(h0.blocks.subrange(0, 0) + h0.blocks.subrange(0, h0.blocks.len() as int) =~= h0.blocks);
        assert forall|j: int| 0 <= j < h0.blocks.len() implies is_start(h0.blocks, #[trigger] offset(h0.blocks, j)) by {}
        loop
            invariant
                self.wf(frames),
                self@.head == h0.head,
                self@.size == h0.size,
                self.head == old(self).head,
                self.pages == old(self).pages,
                h0 == old(self)@,
                frames@.flags == old(frames)@.flags,
                frames@.alloc_start == old(frames)@.alloc_start,
                frames@.heap_start == old(frames)@.heap_start,
                end == h0.head + h0.size,
                0 <= i < self@.blocks.len(),
                cur == self@.head + offset(self@.blocks, i),
                coalesced(h0.blocks) == self@.blocks.subrange(0, i) + coalesced(
                    self@.blocks.subrange(i, self@.blocks.len() as int),
                ),
                headers_only(old(frames)@, frames@, h0.head, h0.blocks, h0.blocks),
                forall|j: int|
                    0 <= j < self@.blocks.len() ==> is_start(h0.blocks, #[trigger] offset(self@.blocks, j)),
            ensures
                self.wf(frames),
                self@ == (HeapView { blocks: coalesced(h0.blocks), ..h0 }),
                headers_only(old(frames)@, frames@, h0.head, h0.blocks, h0.blocks),
                frames@.flags == old(frames)@.flags,
                frames@.alloc_start == old(frames)@.alloc_start,
                frames@.heap_start == old(frames)@.heap_start,
            decreases self@.blocks.len() - i,
        {
            let ghost bs = self@.blocks;
            let ghost n = bs.len() as int;
            proof {
                lemma_offsets(bs, i, n);
                lemma_offsets(bs, i + 1, n);
                lemma_offsets(bs, i, i + 1);
            }
            let (taken, size) = read_header(frames, Ghost(self@), cur, Ghost(i));
            let next = cur + size;
            if next >= end {
                proof {
                    if i + 1 < n {
                        lemma_offsets(bs, i + 1, n);
                    }
                    let t = bs.subrange(i, n);
                    assert(t.len() == 1);
                    assert(bs.subrange(0, i) + t =~= bs);
                }
                break;
            }
            proof {
                if i + 1 >= n {
                    assert(offset(bs, i + 1) == h0.size);
                }
            }
            let (next_taken, next_size) = read_header(frames, Ghost(self@), next, Ghost(i + 1));
            let ghost t = bs.subrange(i, n);
            if !taken && !next_taken {
                let ghost sp = frames@;
                self.merge_next(frames, cur, Ghost(i), size, next_size);
                proof {
                    let nb = self@.blocks;
                    assert forall|w: int| 0 <= w < old(frames)@.memory.len() && #[trigger] frames@.memory[w]
                        != old(frames)@.memory[w] implies is_header_word(old(frames)@, h0.head, h0.blocks, w) by {
                        if frames@.memory[w] != sp.memory[w] {
                            assert(is_header_word(sp, h0.head, bs, w));
                            let j = choose|j: int| 0 <= j < bs.len() && w == sp.word_index(h0.head + #[trigger] offset(bs, j));
                            assert(is_start(h0.blocks, offset(bs, j)));
                            let k = choose|k: int| 0 <= k < h0.blocks.len() && #[trigger] offset(h0.blocks, k) == offset(bs, j);
                            assert(w == old(frames)@.word_index(h0.head + offset(h0.blocks, k)));
                        }
                    }
                    assert forall|j: int| 0 <= j < nb.len() implies is_start(h0.blocks, #[trigger] offset(nb, j)) by {
                        if j <= i {
                            assert(offset(nb, j) == offset(bs, j));
                        } else {
                            assert(offset(nb, j) == offset(bs, j + 1));
                        }
                    }
                    assert(t[0] == bs[i] && t[1] == bs[i + 1]);
                    assert(nb.subrange(0, i) =~= bs.subrange(0, i));
                    assert(nb.subrange(i, nb.len() as int) =~= seq![Block { taken: false, size: t[0].size + t[1].size }]
                        + t.subrange(2, t.len() as int));
                    lemma_offsets(nb, 0, i);
                    lemma_offset_prefix(nb, i, i);
                    lemma_offset_prefix(bs, i, i);
                }
            } else {
                proof {
                    assert(t[0] == bs[i] && t[1] == bs[i + 1]);
                    assert(t.subrange(1, t.len() as int) =~= bs.subrange(i + 1, n));
                    assert(bs.subrange(0, i + 1) =~= bs.subrange(0, i) + seq![t[0]]);
                    assert(coalesced(t) == seq![t[0]] + coalesced(t.subrange(1, t.len() as int)));
                    assert(bs.subrange(0, i) + coalesced(t) =~= bs.subrange(0, i + 1) + coalesced(
                        bs.subrange(i + 1, n),
                    ));
                }
                cur = next;
                proof {
                    i = i + 1;
                }
            }
        }
    }
}

impl KernelHeap {
    /// Frees the block whose payload starts at `address`, then coalesces the
    /// chain. An address that is no block's payload, or whose block is
    /// already free, is refused with `DoubleFreeOrInvalidAddress` and changes
    /// nothing.
    pub fn kernel_free(&mut self, frames: &mut FrameAllocator, address: usize) -> (r: Result<(), MemoryError>)
        requires
            old(self).wf(old(frames)),
        ensures
            final(self).wf(final(frames)),
            final(self)@.head == old(self)@.head,
            final(self)@.size == old(self)@.size,
            final(frames)@.flags == old(frames)@.flags,
            final(frames)@.alloc_start == old(frames)@.alloc_start,
            final(frames)@.heap_start == old(frames)@.heap_start,
            r is Ok <==> exists|i: int| old(self)@.is_payload_of(i, address as int) && old(self)@.blocks[i].taken,
            forall|i: int| old(self)@.is_payload_of(i, address as int) && r is Ok ==>
                #[trigger] final(self)@.blocks == after_free(old(self)@.blocks, i),
            r is Err ==> r == Err::<(), MemoryError>(MemoryError::DoubleFreeOrInvalidAddress)
                && final(self)@ == old(self)@ && final(frames)@ == old(frames)@,
            headers_only(old(frames)@, final(frames)@, old(self)@.head, old(self)@.blocks, old(self)@.blocks),
    {
        let ghost h = self@;
        let ghost bs = h.blocks;
        let ghost n = bs.len() as int;
        proof {
            lemma_offsets(bs, 0, n);
        }
        let end = self.head + self.pages * PAGE_SIZE;
        let mut cur = self.head;
        let ghost mut i: int = 0;
        while cur < end
            invariant
                self@ == h,
                h == old(self)@,
                self.head == old(self).head,
                self.pages == old(self).pages,
                frames@ == old(frames)@,
                h.wf(frames@),
                bs == h.blocks,
                n == bs.len(),
                end == h.head + h.size,
                0 <= i <= n,
                cur == h.head + offset(bs, i),
                i < n <==> cur < end,
                forall|j: int| 0 <= j < i ==> !h.is_payload_of(j, address as int),
            decreases end - cur,
        {
            proof {
                lemma_offsets(bs, i, n);
                lemma_offsets(bs, i + 1, n);
                lemma_offsets(bs, 0, i);
            }
            let (taken, size) = read_header(frames, Ghost(h), cur, Ghost(i));
            if address >= HEADER_SIZE && cur == address - HEADER_SIZE {
                assert(h.is_payload_of(i, address as int));
                assert forall|j: int| #[trigger] h.is_payload_of(j, address as int) implies j == i by {
                    if j != i {
                        lemma_payload_unique(bs, i, j);
                    }
                }
                if !taken {
                    return Err(MemoryError::DoubleFreeOrInvalidAddress);
                }
                let ghost s0 = frames@;
                self.set_taken(frames, cur, Ghost(i), false, size);
                let ghost s1 = frames@;
                let ghost b1 = self@.blocks;
                self.coalesce(frames);
                proof {
                    assert forall|w: int| 0 <= w < s0.memory.len() && #[trigger] frames@.memory[w] != s0.memory[w]
                        implies is_header_word(s0, h.head, bs, w) by {
                        if frames@.memory[w] != s1.memory[w] {
                            assert(is_header_word(s1, h.head, b1, w));
                            let j = choose|j: int| 0 <= j < b1.len() && w == s1.word_index(h.head + #[trigger] offset(b1, j));
                            lemma_offset_update_size(bs, i, Block { taken: false, size: size as nat }, j);
                            assert(w == s0.word_index(h.head + offset(bs, j)));
                        }
                    }
                }
                return Ok(());
            }
            cur = cur + size;
            proof {
                i = i + 1;
            }
        }
        Err(MemoryError::DoubleFreeOrInvalidAddress)
    }

    /// As `kernel_malloc`, and the returned payload, the request rounded up
    /// to 8 bytes, holds zeros.
    pub fn kernel_zmalloc(&mut self, frames: &mut FrameAllocator, size: usize) -> (r: Option<usize>)
        requires
            old(self).wf(old(frames)),
        ensures
            final(self).wf(final(frames)),
            final(self)@.head == old(self)@.head,
            final(self)@.size == old(self)@.size,
            final(frames)@.flags == old(frames)@.flags,
            final(frames)@.alloc_start == old(frames)@.alloc_start,
            final(frames)@.heap_start == old(frames)@.heap_start,
            match first_block(old(self)@.blocks, block_need(size as int), 0) {
                None => r is None && final(self)@ == old(self)@ && final(frames)@ == old(frames)@,
                Some(i) => r == Some(old(self)@.payload(i) as usize) && final(self)@.blocks == split(
                    old(self)@.blocks,
                    i,
                    block_need(size as int),
                ) && (forall|a: int|
                    old(self)@.payload(i) <= a < old(self)@.payload(i) + align8(size as int) && (a
                        - final(frames)@.alloc_start) % 8 == 0 ==> #[trigger] final(frames)@.word(a) == 0)
                    && final(frames)@.memory.len() == old(frames)@.memory.len() && forall|w: int|
                    0 <= w < old(frames)@.memory.len() && #[trigger] final(frames)@.memory[w] != old(
                        frames,
                    )@.memory[w] ==> is_header_word(old(frames)@, old(self)@.head, old(self)@.blocks, w)
                        || is_header_word(old(frames)@, old(self)@.head, final(self)@.blocks, w) || (old(
                        frames,
                    )@.word_index(old(self)@.payload(i)) <= w < old(frames)@.word_index(
                        old(self)@.payload(i),
                    ) + align8(size as int) / 8),
            },
    {
        let ret = self.kernel_malloc(frames, size);
        match ret {
            None => None,
            Some(payload) => {
                let ghost h = self@;
                let ghost bs = h.blocks;
                let ghost n = bs.len() as int;
                let ghost i = first_block(old(self)@.blocks, block_need(size as int), 0)->Some_0;
                let ghost need = block_need(size as int);
                proof {
                    lemma_first_block_found(old(self)@.blocks, need, 0);
                    let ob = old(self)@.blocks;
                    lemma_offsets(ob, 0, i);
                    if ob[i].size - need > HEADER_SIZE {
                        assert(bs[i] == Block { taken: true, size: need as nat });
                    } else {
                        assert(bs[i].size == ob[i].size);
                    }
                    assert(bs.subrange(0, i) =~= ob.subrange(0, i));
                    lemma_offset_prefix(bs, i, i);
                    lemma_offset_prefix(ob, i, i);
                    assert(offset(bs, i) == offset(ob, i));
                    lemma_offsets(bs, i, n);
                    lemma_offsets(bs, 0, i);
                    lemma_offsets(bs, i, i + 1);
                    assert(align8(size as int) == need - 8);
                }
                let len = (size + 7) / 8 * 8;
                let cur = payload - HEADER_SIZE;
                proof {
                    vstd::arithmetic::div_mod::lemma_mod_adds(h.head - frames@.alloc_start, offset(bs, i), 8);
                    lemma_offsets(bs, i, i);
                }
                let mut k: usize = 0;
                while k < len
                    invariant
                        self@ == h,
                        self.wf(frames),
                        bs == h.blocks,
                        n == bs.len(),
                        0 <= i < n,
                        cur == h.head + offset(bs, i),
                        payload == cur + HEADER_SIZE,
                        len == align8(size as int),
                        len + HEADER_SIZE <= bs[i].size,
                        k <= len,
                        k % 8 == 0,
                        frames@.flags == old(frames)@.flags,
                        frames@.alloc_start == old(frames)@.alloc_start,
                        frames@.heap_start == old(frames)@.heap_start,
                        forall|a: int|
                            payload <= a < payload + k && (a - frames@.alloc_start) % 8 == 0
                                ==> #[trigger] frames@.word(a) == 0,
                        (payload - frames@.alloc_start) % 8 == 0,
                        frames@.memory.len() == old(frames)@.memory.len(),
                        h.head == old(self)@.head,
                        forall|w: int|
                            0 <= w < old(frames)@.memory.len() && #[trigger] frames@.memory[w] != old(
                                frames,
                            )@.memory[w] ==> is_header_word(old(frames)@, h.head, old(self)@.blocks, w)
                                || is_header_word(old(frames)@, h.head, bs, w) || (old(frames)@.word_index(
                                payload as int,
                            ) <= w < old(frames)@.word_index(payload as int) + k / 8),
                    decreases len - k,
                {
                    let ghost s0 = frames@;
                    proof {
                        lemma_offsets(bs, i, n);
                        lemma_offsets(bs, 0, i);
                        lemma_offsets(bs, i, i + 1);
                        vstd::arithmetic::div_mod::lemma_mod_adds(h.head - s0.alloc_start, offset(bs, i), 8);
                        vstd::arithmetic::div_mod::lemma_mod_adds(payload - s0.alloc_start, k as int, 8);
                        assert(len % 8 == 0) by {
                            vstd::arithmetic::div_mod::lemma_mod_multiples_basic((size as int + 7) / 8, 8);
                        }
                    }
                    let a = payload + k;
                    frames.write_word(a, 0);
                    proof {
                        assert(s0.word_index(a as int) == s0.word_index(payload as int) + k / 8) by {
                            let x = payload - s0.alloc_start;
                            vstd::arithmetic::div_mod::lemma_fundamental_div_mod(x, 8);
                            vstd::arithmetic::div_mod::lemma_fundamental_div_mod(k as int, 8);
                            vstd::arithmetic::div_mod::lemma_div_multiples_vanish_fancy(x / 8 + k / 8, 0, 8);
                        }
                        assert forall|w: int|
                            0 <= w < old(frames)@.memory.len() && #[trigger] frames@.memory[w] != old(
                                frames,
                            )@.memory[w] implies is_header_word(old(frames)@, h.head, old(self)@.blocks, w)
                                || is_header_word(old(frames)@, h.head, bs, w) || (old(frames)@.word_index(
                                payload as int,
                            ) <= w < old(frames)@.word_index(payload as int) + (k + 8) / 8) by {
                            if w != s0.word_index(a as int) {
                                assert(s0.memory[w] != old(frames)@.memory[w]);
                            }
                        }
                        assert forall|j: int| 0 <= j < n implies frames@.word(h.head + #[trigger] offset(bs, j))
                            == header(bs[j]) by {
                            lemma_offsets(bs, j, j);
                            lemma_offsets(bs, j, n);
                            lemma_offsets(bs, 0, j);
                            if j < i {
                                lemma_offsets(bs, j, i);
                            } else if j > i {
                                lemma_offsets(bs, i + 1, j);
                            }
                            vstd::arithmetic::div_mod::lemma_mod_adds(h.head - s0.alloc_start, offset(bs, j), 8);
                            lemma_distinct_words(s0, a as int, h.head + offset(bs, j));
                        }
                        assert forall|b: int|
                            payload <= b < payload + k + 8 && (b - frames@.alloc_start) % 8 == 0
                                implies #[trigger] frames@.word(b) == 0 by {
                            if b != a {
                                let x = b - s0.alloc_start;
                                let y = a - s0.alloc_start;
                                vstd::arithmetic::div_mod::lemma_fundamental_div_mod(x, 8);
                                vstd::arithmetic::div_mod::lemma_fundamental_div_mod(y, 8);
                                assert(b < a) by (nonlinear_arith)
                                    requires
                                        x == 8 * (x / 8) + x % 8,
                                        y == 8 * (y / 8) + y % 8,
                                        x % 8 == 0,
                                        y % 8 == 0,
                                        x < y + 8,
                                        x != y,
                                        b - a == x - y,
                                ;
                                assert(s0.word(b) == 0);
                                lemma_distinct_words(s0, a as int, b);
                            }
                        }
                    }
                    k = k + 8;
                }
                Some(payload)
            },
        }
    }
}

/// No two neighbouring blocks are both free.
pub open spec fn no_adjacent_free(blocks: Seq<Block>) -> bool {
    forall|j: int| 0 <= j < blocks.len() - 1 ==> #[trigger] blocks[j].taken || blocks[j + 1].taken
}

proof fn lemma_free_bytes_at_least(blocks: Seq<Block>, k: int)
    requires
        0 <= k < blocks.len(),
        !blocks[k].taken,
    ensures
        free_bytes(blocks) >= blocks[k].size,
    decreases blocks.len(),
{
    if k < blocks.len() - 1 {
        lemma_free_bytes_at_least(blocks.drop_last(), k);
    } else {
        lemma_free_bytes_nonneg(blocks.drop_last());
    }
}

proof fn lemma_free_bytes_nonneg(blocks: Seq<Block>)
    ensures
        free_bytes(blocks) >= 0,
    decreases blocks.len(),
{
    if blocks.len() > 0 {
        lemma_free_bytes_nonneg(blocks.drop_last());
    }
}

proof fn lemma_first_block_none(blocks: Seq<Block>, need: int, from: int)
    requires
        0 <= from,
        forall|k: int| 0 <= k < blocks.len() && !blocks[k].taken ==> #[trigger] blocks[k].size < need,
    ensures
        first_block(blocks, need, from) is None,
    decreases blocks.len() - from,
{
    if from < blocks.len() {
        lemma_first_block_none(blocks, need, from + 1);
    }
}

/// A request that needs more bytes, header included, than the free blocks
/// hold together finds no block, so `kernel_malloc` fails and changes nothing.
pub proof fn lemma_heap_exhaustion(blocks: Seq<Block>, size: int)
    requires
        block_need(size) > free_bytes(blocks),
    ensures
        first_block(blocks, block_need(size), 0) is None,
{
    assert forall|k: int| 0 <= k < blocks.len() && !blocks[k].taken implies #[trigger] blocks[k].size
        < block_need(size) by {
        lemma_free_bytes_at_least(blocks, k);
    }
    lemma_first_block_none(blocks, block_need(size), 0);
}

proof fn lemma_coalesced_id(blocks: Seq<Block>)
    requires
        no_adjacent_free(blocks),
    ensures
        coalesced(blocks) == blocks,
    decreases blocks.len(),
{
    if blocks.len() > 1 {
        let t = blocks.subrange(1, blocks.len() as int);
        assert(blocks[0].taken || blocks[1].taken);
        assert forall|j: int| 0 <= j < t.len() - 1 implies #[trigger] t[j].taken || t[j + 1].taken by {
            assert(blocks[j + 1].taken || blocks[j + 2].taken);
        }
        lemma_coalesced_id(t);
        assert(seq![blocks[0]] + t =~= blocks);
    }
}

proof fn lemma_coalesced_prefix(p: Seq<Block>, t: Seq<Block>)
    requires
        p.len() >= 1,
        no_adjacent_free(p),
        p.last().taken,
    ensures
        coalesced(p + t) == p + coalesced(t),
    decreases p.len(),
{
    let pt = p + t;
    if p.len() == 1 {
        if pt.len() > 1 {
            assert(pt.subrange(1, pt.len() as int) =~= t);
        } else {
            assert(t.len() == 0);
            assert(coalesced(t) == t);
            assert(pt =~= p + coalesced(t));
        }
    } else {
        let q = p.subrange(1, p.len() as int);
        assert(p[0].taken || p[1].taken);
        assert forall|j: int| 0 <= j < q.len() - 1 implies #[trigger] q[j].taken || q[j + 1].taken by {
            assert(p[j + 1].taken || p[j + 2].taken);
        }
        lemma_coalesced_prefix(q, t);
        assert(pt.subrange(1, pt.len() as int) =~= q + t);
        assert(seq![p[0]] + (q + coalesced(t)) =~= p + coalesced(t));
    }
}

/// Three neighbouring taken blocks, freed middle first and then the outer
/// two, end as one free block that spans all three, headers included, and
/// the free block that followed them, if any; the rest of the chain stays.
pub proof fn lemma_coalesce_three(blocks: Seq<Block>, k: int)
    requires
        no_adjacent_free(blocks),
        0 <= k,
        k + 3 <= blocks.len(),
        k == 0 || blocks[k - 1].taken,
        blocks[k].taken,
        blocks[k + 1].taken,
        blocks[k + 2].taken,
    ensures
        ({
            let n = blocks.len() as int;
            let b1 = after_free(blocks, k + 1);
            let b2 = after_free(b1, k);
            let b3 = after_free(b2, k + 1);
            let trailing = k + 3 < n && !blocks[k + 3].taken;
            let span = blocks[k].size + blocks[k + 1].size + blocks[k + 2].size + if trailing {
                blocks[k + 3].size
            } else {
                0
            };
            b3 == blocks.subrange(0, k) + seq![Block { taken: false, size: span }]
                + blocks.subrange(if trailing { k + 4 } else { k + 3 }, n)
        }),
{
    let n = blocks.len() as int;
    let a = blocks[k];
    let b = blocks[k + 1];
    let c = blocks[k + 2];
    let p = blocks.subrange(0, k);
    let r = blocks.subrange(k + 3, n);
    assert forall|j: int| 0 <= j < r.len() - 1 implies #[trigger] r[j].taken || r[j + 1].taken by {
        assert(blocks[k + 3 + j].taken || blocks[k + 4 + j].taken);
    }
    assert forall|j: int| 0 <= j < p.len() - 1 implies #[trigger] p[j].taken || p[j + 1].taken by {
        assert(blocks[j].taken || blocks[j + 1].taken);
    }
    let fb = Block { taken: false, size: b.size };
    // Freeing the middle block leaves no two free neighbours.
    let u1 = blocks.update(k + 1, fb);
    assert(u1 =~= p + seq![a, fb, c] + r);
    assert forall|j: int| 0 <= j < u1.len() - 1 implies #[trigger] u1[j].taken || u1[j + 1].taken by {
        if j != k && j != k + 1 {
            assert(blocks[j].taken || blocks[j + 1].taken);
        }
    }
    lemma_coalesced_id(u1);
    let b1 = after_free(blocks, k + 1);
    assert(b1 == u1);
    // Freeing the first block merges it with the middle one.
    let fa = Block { taken: false, size: a.size };
    let u2 = b1.update(k, fa);
    let ab = Block { taken: false, size: a.size + b.size };
    let t2 = seq![fa, fb, c] + r;
    assert(u2 =~= p + t2);
    let cr = seq![c] + r;
    assert forall|j: int| 0 <= j < cr.len() - 1 implies #[trigger] cr[j].taken || cr[j + 1].taken by {
        if j > 0 {
            assert(r[j - 1].taken || r[j].taken);
        }
    }
    lemma_coalesced_id(cr);
    assert(t2.subrange(2, t2.len() as int) =~= cr);
    assert(coalesced(t2) == coalesced(seq![ab] + cr));
    assert((seq![ab] + cr).subrange(1, (seq![ab] + cr).len() as int) =~= cr);
    assert(coalesced(seq![ab] + cr) == seq![ab] + coalesced(cr));
    let b2 = after_free(b1, k);
    if k > 0 {
        lemma_coalesced_prefix(p, t2);
    } else {
        assert(p + t2 =~= t2);
        assert(p + coalesced(t2) =~= coalesced(t2));
    }
    assert(b2 == p + (seq![ab] + cr));
    // Freeing the last block merges all three, and the free block after them.
    let fc = Block { taken: false, size: c.size };
    let u3 = b2.update(k + 1, fc);
    let t3 = seq![ab, fc] + r;
    assert(u3 =~= p + t3);
    let abc = Block { taken: false, size: a.size + b.size + c.size };
    assert(t3.subrange(2, t3.len() as int) =~= r);
    assert(coalesced(t3) == coalesced(seq![abc] + r));
    let b3 = after_free(b2, k + 1);
    if k > 0 {
        lemma_coalesced_prefix(p, t3);
    } else {
        assert(p + t3 =~= t3);
        assert(p + coalesced(t3) =~= coalesced(t3));
    }
    assert(b3 == p + coalesced(seq![abc] + r));
    let ar = seq![abc] + r;
    if k + 3 < n && !blocks[k + 3].taken {
        let abcd = Block { taken: false, size: abc.size + r[0].size };
        let r1 = r.subrange(1, r.len() as int);
        assert(ar.subrange(2, ar.len() as int) =~= r1);
        assert(coalesced(ar) == coalesced(seq![abcd] + r1));
        assert forall|j: int| 0 <= j < r1.len() - 1 implies #[trigger] r1[j].taken || r1[j + 1].taken by {
            assert(r[j + 1].taken || r[j + 2].taken);
        }
        if r1.len() > 0 {
            assert(r[0].taken || r[1].taken);
            assert((seq![abcd] + r1).subrange(1, (seq![abcd] + r1).len() as int) =~= r1);
        }
        lemma_coalesced_id(r1);
        assert(coalesced(seq![abcd] + r1) == seq![abcd] + r1);
        assert(r1 =~= blocks.subrange(k + 4, n));
    } else {
        if r.len() > 0 {
            assert(ar.subrange(1, ar.len() as int) =~= r);
        }
        lemma_coalesced_id(r);
        assert(coalesced(ar) == seq![abc] + r);
    }
}

impl KernelHeap {
    /// The chain of blocks, as (header address, size, taken) triples in
    /// address order.
    pub fn memory_table(&self, frames: &FrameAllocator) -> (r: Vec<(usize, usize, bool)>)
        requires
            self.wf(frames),
        ensures
            r@.len() == self@.blocks.len(),
            forall|k: int|
                0 <= k < r@.len() ==> (#[trigger] r@[k]).0 == self@.head + offset(self@.blocks, k)
                    && r@[k].1 == self@.blocks[k].size && r@[k].2 == self@.blocks[k].taken,
    {
        let ghost h = self@;
        let ghost bs = h.blocks;
        let ghost n = bs.len() as int;
        proof {
            lemma_offsets(bs, 0, n);
        }
        let end = self.head + self.pages * PAGE_SIZE;
        let mut cur = self.head;
        let ghost mut i: int = 0;
        let mut r: Vec<(usize, usize, bool)> = Vec::new();
        while cur < end
            invariant
                self@ == h,
                h.wf(frames@),
                bs == h.blocks,
                n == bs.len(),
                end == h.head + h.size,
                0 <= i <= n,
                cur == h.head + offset(bs, i),
                i < n <==> cur < end,
                r@.len() == i,
                forall|k: int|
                    0 <= k < i ==> (#[trigger] r@[k]).0 == h.head + offset(bs, k) && r@[k].1
                        == bs[k].size && r@[k].2 == bs[k].taken,
            decreases end - cur,
        {
            proof {
                lemma_offsets(bs, i, n);
                lemma_offsets(bs, i + 1, n);
                lemma_offsets(bs, 0, i);
            }
            let (taken, size) = read_header(frames, Ghost(h), cur, Ghost(i));
            r.push((cur, size, taken));
            cur = cur + size;
            proof {
                i = i + 1;
            }
        }
        r
    }
}

/// A heap stays well formed in a state where the words of its arena are
/// those it had.
pub proof fn lemma_heap_kept(h: HeapView, s: FramesView, s2: FramesView)
    requires
        h.wf(s),
        s2.wf(),
        s2.alloc_start == s.alloc_start,
        s2.flags.len() == s.flags.len(),
        forall|w: int|
            s.word_index(h.head) <= w < s.word_index(h.head) + h.size / 8 ==> #[trigger] s2.memory[w]
                == s.memory[w],
    ensures
        h.wf(s2),
{
    let bs = h.blocks;
    let n = bs.len() as int;
    lemma_offsets(bs, 0, n);
    assert forall|i: int| 0 <= i < n implies s2.word(h.head + #[trigger] offset(bs, i)) == header(bs[i]) by {
        lemma_offsets(bs, i, n);
        lemma_offsets(bs, 0, i);
        lemma_offsets(bs, i, i);
        let x = h.head - s.alloc_start;
        let o = offset(bs, i);
        vstd::arithmetic::div_mod::lemma_fundamental_div_mod(x, 8);
        vstd::arithmetic::div_mod::lemma_fundamental_div_mod(o, 8);
        vstd::arithmetic::div_mod::lemma_fundamental_div_mod(h.size, 8);
        vstd::arithmetic::div_mod::lemma_div_multiples_vanish_fancy(x / 8 + o / 8, 0, 8);
        assert(s.word_index(h.head + o) == s.word_index(h.head) + o / 8);
        assert(bs[i].size >= 8);
        assert(o + 8 <= h.size);
        assert(o / 8 < h.size / 8) by (nonlinear_arith)
            requires
                o == 8 * (o / 8),
                o + 8 <= h.size,
                h.size == 8 * (h.size / 8) + h.size % 8,
                0 <= h.size % 8 < 8,
        ;
    }
}

/// Coalescing keeps every taken block, at the offset it had.
proof fn lemma_coalesced_keeps_taken(blocks: Seq<Block>, j: int)
    requires
        0 <= j < coalesced(blocks).len(),
        coalesced(blocks)[j].taken,
    ensures
        exists|i: int|
            0 <= i < blocks.len() && blocks[i] == coalesced(blocks)[j] && #[trigger] offset(blocks, i)
                == offset(coalesced(blocks), j),
    decreases blocks.len(),
{
    let c = coalesced(blocks);
    if blocks.len() <= 1 {
        assert(offset(blocks, j) == offset(c, j));
    } else if !blocks[0].taken && !blocks[1].taken {
        let m = Block { taken: false, size: blocks[0].size + blocks[1].size };
        let rest = blocks.subrange(2, blocks.len() as int);
        let t = seq![m] + rest;
        lemma_coalesced_keeps_taken(t, j);
        let i = choose|i: int| 0 <= i < t.len() && t[i] == c[j] && #[trigger] offset(t, i) == offset(c, j);
        assert(i >= 1);
        lemma_offset_concat(seq![m], rest, i);
        lemma_offset_split(blocks, 2, i + 1);
        assert(blocks.subrange(2, blocks.len() as int) =~= rest);
        assert(offset(seq![m], 0) == 0);
        assert(seq![m][0] == m);
        assert(offset(seq![m], 1) == m.size);
        assert(offset(blocks, 0) == 0);
        assert(offset(blocks, 1) == blocks[0].size);
        assert(offset(blocks, 2) == blocks[0].size + blocks[1].size);
        assert(blocks[i + 1] == t[i]);
        assert(offset(blocks, i + 1) == offset(c, j));
    } else {
        let rest = blocks.subrange(1, blocks.len() as int);
        let cr = coalesced(rest);
        assert(c == seq![blocks[0]] + cr);
        if j == 0 {
            assert(offset(blocks, 0) == offset(c, 0));
        } else {
            lemma_coalesced_keeps_taken(rest, j - 1);
            let i = choose|i: int| 0 <= i < rest.len() && rest[i] == cr[j - 1] && #[trigger] offset(rest, i)
                == offset(cr, j - 1);
            lemma_offset_concat(seq![blocks[0]], cr, j);
            lemma_offset_split(blocks, 1, i + 1);
            assert(offset(seq![blocks[0]], 0) == 0);
            assert(seq![blocks[0]][0] == blocks[0]);
            assert(offset(seq![blocks[0]], 1) == blocks[0].size);
            assert(offset(blocks, 0) == 0);
            assert(offset(blocks, 1) == blocks[0].size);
            assert(blocks[i + 1] == rest[i]);
            assert(offset(blocks, i + 1) == offset(c, j));
        }
    }
}

proof fn lemma_offset_update_size(blocks: Seq<Block>, i: int, b: Block, j: int)
    requires
        0 <= i < blocks.len(),
        b.size == blocks[i].size,
        0 <= j <= blocks.len(),
    ensures
        offset(blocks.update(i, b), j) == offset(blocks, j),
    decreases j,
{
    if j > 0 {
        lemma_offset_update_size(blocks, i, b, j - 1);
    }
}

/// Once the block at index `i` is freed, its payload address belongs to no
/// taken block, so freeing it again is refused.
pub proof fn lemma_double_free(h: HeapView, i: int)
    requires
        0 <= i < h.blocks.len(),
        h.blocks[i].taken,
        forall|k: int| 0 <= k < h.blocks.len() ==> #[trigger] h.blocks[k].size >= HEADER_SIZE,
    ensures
        forall|j: int|
            (HeapView { blocks: after_free(h.blocks, i), ..h }).is_payload_of(j, h.payload(i))
                ==> !(#[trigger] after_free(h.blocks, i)[j]).taken,
{
    let bs = h.blocks;
    let b = Block { taken: false, size: bs[i].size };
    let u = bs.update(i, b);
    let c = after_free(bs, i);
    assert forall|j: int|
        (HeapView { blocks: c, ..h }).is_payload_of(j, h.payload(i)) implies !(#[trigger] c[j]).taken by {
        if c[j].taken {
            lemma_coalesced_keeps_taken(u, j);
            let k = choose|k: int| 0 <= k < u.len() && u[k] == c[j] && #[trigger] offset(u, k) == offset(c, j);
            lemma_offset_update_size(bs, i, b, k);
            lemma_offset_update_size(bs, i, b, i);
            assert(offset(bs, k) == offset(bs, i));
            if k != i {
                if k < i {
                    lemma_offsets_strict(bs, k, i);
                } else {
                    lemma_offsets_strict(bs, i, k);
                }
            }
        }
    }
}

proof fn lemma_offsets_strict(blocks: Seq<Block>, i: int, j: int)
    requires
        0 <= i < j <= blocks.len(),
        forall|k: int| 0 <= k < blocks.len() ==> #[trigger] blocks[k].size >= HEADER_SIZE,
    ensures
        offset(blocks, i) < offset(blocks, j),
    decreases j,
{
    if j > i + 1 {
        lemma_offsets_strict(blocks, i, j - 1);
    }
}

} // verus!
