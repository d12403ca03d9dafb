//! A bump allocator over a fixed byte range: each request is placed at the
//! first suitably aligned address past the previous one, and nothing is ever
//! given back.
use vstd::prelude::*;

verus! {

/// A bump allocator over `start .. end`; `head` is the offset of the first
/// byte not yet handed out.
pub struct LinearAllocator {
    pub head: usize,
    pub start: usize,
    pub end: usize,
}

impl LinearAllocator {
    pub open spec fn wf(&self) -> bool {
        &&& self.start <= self.end
        &&& self.start + self.head <= self.end
    }

    /// An allocator over an empty range.
    pub fn empty() -> (r: LinearAllocator)
        ensures
            r.head == 0,
            r.start == 0,
            r.end == 0,
            r.wf(),
    {
        LinearAllocator { head: 0, start: 0, end: 0 }
    }

    /// Lays the allocator over `start .. start + size`, keeping its head.
    pub fn init(&mut self, start: usize, size: usize)
        requires
            start + size <= usize::MAX,
        ensures
            final(self).start == start,
            final(self).end == start + size,
            final(self).head == old(self).head,
    {
        self.start = start;
        self.end = start + size;
    }

    /// Hands out `size` bytes at the first multiple of `align` at or past the
    /// head, and moves the head past them; `None`, changing nothing, when
    /// they would run past the end of the range.
    pub fn allocate(&mut self, size: usize, align: usize) -> (r: Option<usize>)
        requires
            old(self).wf(),
            align > 0,
        ensures
            final(self).wf(),
            final(self).start == old(self).start,
            final(self).end == old(self).end,
            ({
                let first = if old(self).head % align == 0 {
                    old(self).head as int
                } else {
                    old(self).head + align - old(self).head % align
                };
                if old(self).start + first + size <= old(self).end {
                    &&& r == Some((old(self).start + first) as usize)
                    &&& final(self).head == first + size
                } else {
                    &&& r is None
                    &&& final(self).head == old(self).head
                }
            }),
    {
        let room = self.end - self.start;
        let mut head = self.head;
        if head % align != 0 {
            let pad = align - head % align;
            if pad > room - head {
                return None;
            }
            head = head + pad;
        }
        if size > room - head {
            return None;
        }
        let new_head = head + size;
        self.head = new_head;
        Some(self.start + head)
    }
}

} // verus!
