//! The contents of physical memory.
//!
//! A [`Dram`] is a contiguous run of 4 KiB frames, each 512 64-bit words. It is
//! what the kernel reaches through its direct map.

use vstd::prelude::*;
use crate::bits;
use crate::config::{DIRECT_MAP_PAGES, PAGE_SIZE};
use crate::mm::addr::PhysPageNum;

verus! {

/// Words in one frame.
pub const FRAME_WORDS: u64 = 512;

/// A contiguous run of physical frames and what they hold.
pub struct Dram {
    first: u64,
    words: Vec<u64>,
}

impl Dram {
    /// Frame number of the first frame.
    pub closed spec fn first(&self) -> int {
        self.first as int
    }

    /// Number of frames.
    pub closed spec fn len(&self) -> int {
        self.words@.len() as int / 512
    }

    /// Does the run include frame `p`?
    pub open spec fn has(&self, p: int) -> bool {
        self.first() <= p < self.first() + self.len()
    }

    /// Word `i` of frame `p`.
    pub closed spec fn word(&self, p: int, i: int) -> u64 {
        self.words@[(p - self.first) * 512 + i]
    }

    /// Byte `i` of frame `p`.
    pub open spec fn byte(&self, p: int, i: int) -> u8 {
        bits::byte_of(self.word(p, i / 8), (i % 8) as u64)
    }

    /// Whole frames, all inside the direct map window.
    pub closed spec fn wf(&self) -> bool {
        &&& self.words@.len() % 512 == 0
        &&& self.first + self.words@.len() / 512 <= DIRECT_MAP_PAGES
    }

    /// Frame `p` holds the same words in both memories.
    pub open spec fn same_frame(&self, other: Dram, p: int) -> bool {
        forall|i: int| 0 <= i < 512 ==> #[trigger] self.word(p, i) == other.word(p, i)
    }

    /// The two memories cover the same frames.
    pub open spec fn same_shape(&self, other: Dram) -> bool {
        self.first() == other.first() && self.len() == other.len()
    }

    /// What well-formedness says of the frame numbers.
    pub proof fn lemma_bounds(&self)
        requires
            self.wf(),
        ensures
            0 <= self.first(),
            0 <= self.len(),
            self.first() + self.len() <= DIRECT_MAP_PAGES,
    {
    }

    /// `frames` zeroed frames starting at frame number `first`.
    pub fn new(first: PhysPageNum, frames: u64) -> (r: Dram)
        requires
            first.0 + frames <= DIRECT_MAP_PAGES,
            frames * FRAME_WORDS <= usize::MAX,
        ensures
            r.wf(),
            r.first() == first.0,
            r.len() == frames,
            forall|p: int, i: int| r.has(p) && 0 <= i < 512 ==> #[trigger] r.word(p, i) == 0,
    {
        let words: Vec<u64> = vec![0u64; (frames * FRAME_WORDS) as usize];
        Dram { first: first.0, words }
    }

    /// Read word `i` of frame `p`.
    pub fn read(&self, p: PhysPageNum, i: u64) -> (r: u64)
        requires
            self.wf(),
            self.has(p.0 as int),
            i < FRAME_WORDS,
        ensures
            r == self.word(p.0 as int, i as int),
    {
        assert((p.0 - self.first) * 512 + i < self.words.len());
        self.words[((p.0 - self.first) * FRAME_WORDS + i) as usize]
    }

    /// Write word `i` of frame `p`.
    pub fn write(&mut self, p: PhysPageNum, i: u64, v: u64)
        requires
            old(self).wf(),
            old(self).has(p.0 as int),
            i < FRAME_WORDS,
        ensures
            final(self).wf(),
            final(self).same_shape(*old(self)),
            forall|q: int, j: int|
                old(self).has(q) && 0 <= j < 512 ==> #[trigger] final(self).word(q, j) == (if q == p.0
                    && j == i {
                    v
                } else {
                    old(self).word(q, j)
                }),
    {
        assert((p.0 - self.first) * 512 + i < self.words.len());
        let at: usize = ((p.0 - self.first) * FRAME_WORDS + i) as usize;
        self.words[at] = v;
    }

    /// Read byte `i` of frame `p`.
    pub fn read_byte(&self, p: PhysPageNum, i: u64) -> (r: u8)
        requires
            self.wf(),
            self.has(p.0 as int),
            i < PAGE_SIZE,
        ensures
            r == self.byte(p.0 as int, i as int),
    {
        bits::get_byte(self.read(p, i / 8), i % 8)
    }

    /// Write byte `i` of frame `p`.
    pub fn write_byte(&mut self, p: PhysPageNum, i: u64, b: u8)
        requires
            old(self).wf(),
            old(self).has(p.0 as int),
            i < PAGE_SIZE,
        ensures
            final(self).wf(),
            final(self).same_shape(*old(self)),
            forall|q: int| old(self).has(q) && q != p.0 ==> #[trigger] final(self).same_frame(*old(self), q),
            forall|j: int|
                0 <= j < PAGE_SIZE ==> #[trigger] final(self).byte(p.0 as int, j) == (if j == i {
                    b
                } else {
                    old(self).byte(p.0 as int, j)
                }),
    {
        let ghost before = *self;
        let w: u64 = self.read(p, i / 8);
        let v: u64 = bits::set_byte(w, i % 8, b);
        self.write(p, i / 8, v);
        proof {
            assert forall|j: int| 0 <= j < PAGE_SIZE implies #[trigger] self.byte(p.0 as int, j) == (if j
                == i {
                b
            } else {
                before.byte(p.0 as int, j)
            }) by {
                bits::lemma_byte_update(w, (i % 8) as u64, (j % 8) as u64, b);
            }
        }
    }

    /// Overwrite frame `p` with zeroes.
    pub fn zero(&mut self, p: PhysPageNum)
        requires
            old(self).wf(),
            old(self).has(p.0 as int),
        ensures
            final(self).wf(),
            final(self).same_shape(*old(self)),
            forall|q: int, j: int|
                old(self).has(q) && 0 <= j < 512 ==> #[trigger] final(self).word(q, j) == (if q == p.0 {
                    0
                } else {
                    old(self).word(q, j)
                }),
    {
        let ghost before = *self;
        let mut i: u64 = 0;
        while i < FRAME_WORDS
            invariant
                i <= FRAME_WORDS,
                self.wf(),
                before.has(p.0 as int),
                self.same_shape(before),
                forall|q: int, j: int|
                    before.has(q) && 0 <= j < 512 ==> #[trigger] self.word(q, j) == (if q == p.0 && j < i {
                        0
                    } else {
                        before.word(q, j)
                    }),
            decreases FRAME_WORDS - i,
        {
            self.write(p, i, 0);
            i = i + 1;
        }
    }
}

} // verus!
