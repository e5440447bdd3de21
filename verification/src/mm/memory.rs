//! Physical memory: the bytes of every physical page, and the stack-like
//! allocator that hands the free ones out.
use vstd::prelude::*;
use crate::config::PAGE_SIZE;

verus! {

/// The bytes of `bytes` with frame `ppn` set to zero.
pub open spec fn zero_frame(bytes: Seq<u8>, ppn: usize) -> Seq<u8> {
    Seq::new(
        bytes.len(),
        |i: int|
            if ppn * PAGE_SIZE <= i < (ppn + 1) * PAGE_SIZE {
                0u8
            } else {
                bytes[i]
            },
    )
}

/// The bytes of `bytes` with frames `ppns[0]`, ..., `ppns[n-1]` set to zero.
pub open spec fn zero_frames(bytes: Seq<u8>, ppns: Seq<usize>) -> Seq<u8>
    decreases ppns.len(),
{
    if ppns.len() == 0 {
        bytes
    } else {
        zero_frame(zero_frames(bytes, ppns.drop_last()), ppns.last())
    }
}

/// Physical memory and its frame allocator.
///
/// Frames below `frame_end()` are managed by the allocator: those that have
/// been handed back (most recently returned first) and those never handed
/// out (in increasing order) form `free_frames()`, the order in which later
/// allocations give them out.
pub struct PhysMemory {
    bytes: Vec<u8>,
    current: usize,
    end: usize,
    recycled: Vec<usize>,
}

impl PhysMemory {
    /// The content of physical memory, byte by byte.
    pub closed spec fn bytes(&self) -> Seq<u8> {
        self.bytes@
    }

    /// The free frames, in the order in which they will be allocated.
    pub closed spec fn free_frames(&self) -> Seq<usize> {
        self.recycled@.reverse() + Seq::new(
            (self.end - self.current) as nat,
            |i: int| (self.current + i) as usize,
        )
    }

    /// The end of the range of frames that the allocator manages.
    pub closed spec fn frame_end(&self) -> usize {
        self.end
    }

    pub closed spec fn wf(&self) -> bool {
        &&& self.current <= self.end
        &&& self.end * PAGE_SIZE <= self.bytes@.len()
        &&& self.bytes@.len() <= usize::MAX
        &&& forall|i: int| 0 <= i < self.recycled@.len() ==> #[trigger] self.recycled@[i] < self.current
        &&& self.recycled@.no_duplicates()
    }

    /// `ppn` is a managed frame that is currently handed out.
    pub open spec fn is_allocated(&self, ppn: usize) -> bool {
        ppn < self.frame_end() && !self.free_frames().contains(ppn)
    }

    /// What a well-formed memory guarantees of its free frames.
    pub proof fn lemma_wf(&self)
        requires
            self.wf(),
        ensures
            self.free_frames().no_duplicates(),
            forall|i: int|
                0 <= i < self.free_frames().len() ==> #[trigger] self.free_frames()[i] < self.frame_end(),
            self.frame_end() * PAGE_SIZE <= self.bytes().len(),
            self.bytes().len() <= usize::MAX,
    {
        let r = self.recycled@.reverse();
        let fresh = Seq::new((self.end - self.current) as nat, |i: int| (self.current + i) as usize);
        assert forall|i: int| 0 <= i < r.len() implies #[trigger] r[i] < self.current by {
            assert(r[i] == self.recycled@[self.recycled@.len() - 1 - i]);
        }
        assert forall|i: int, j: int| 0 <= i < j < r.len() implies r[i] != r[j] by {
            assert(r[i] == self.recycled@[self.recycled@.len() - 1 - i]);
            assert(r[j] == self.recycled@[self.recycled@.len() - 1 - j]);
        }
        let f = self.free_frames();
        assert(f == r + fresh);
        assert forall|i: int, j: int| 0 <= i < j < f.len() implies f[i] != f[j] by {
            if j < r.len() {
            } else if i < r.len() {
                assert(f[i] == r[i]);
                assert(f[j] == fresh[j - r.len()]);
            } else {
                assert(f[i] == fresh[i - r.len()]);
                assert(f[j] == fresh[j - r.len()]);
            }
        }
        assert forall|i: int| 0 <= i < f.len() implies #[trigger] f[i] < self.frame_end() by {
            if i < r.len() {
                assert(f[i] == r[i]);
            } else {
                assert(f[i] == fresh[i - r.len()]);
            }
        }
    }

    /// A memory of `num_frames` zeroed frames, of which those from
    /// `first_free` on are free, in increasing order.
    pub fn new(num_frames: usize, first_free: usize) -> (r: Self)
        requires
            first_free <= num_frames,
            num_frames * PAGE_SIZE <= usize::MAX,
        ensures
            r.wf(),
            r.bytes() == Seq::new((num_frames * PAGE_SIZE) as nat, |i: int| 0u8),
            r.free_frames() == Seq::new((num_frames - first_free) as nat, |i: int| (first_free + i) as usize),
            r.frame_end() == num_frames,
    {
        let len = num_frames * PAGE_SIZE;
        let mut bytes: Vec<u8> = Vec::new();
        let mut i: usize = 0;
        while i < len
            invariant
                i <= len,
                bytes@ == Seq::new(i as nat, |k: int| 0u8),
            decreases len - i,
        {
            bytes.push(0u8);
            i = i + 1;
        }
        let r = PhysMemory { bytes, current: first_free, end: num_frames, recycled: Vec::new() };
        assert(r.recycled@.reverse() =~= Seq::<usize>::empty());
        assert(r.free_frames() =~= Seq::new((num_frames - first_free) as nat, |i: int| (first_free + i) as usize));
        r
    }

    /// The number of bytes of physical memory.
    pub fn size(&self) -> (r: usize)
        ensures
            r == self.bytes().len(),
    {
        self.bytes.len()
    }

    /// Reads the byte at physical address `pa`.
    pub fn read_byte(&self, pa: usize) -> (r: u8)
        requires
            pa < self.bytes().len(),
        ensures
            r == self.bytes()[pa as int],
    {
        self.bytes[pa]
    }

    /// Writes `value` at physical address `pa`.
    pub fn write_byte(&mut self, pa: usize, value: u8)
        requires
            old(self).wf(),
            pa < old(self).bytes().len(),
        ensures
            final(self).wf(),
            final(self).bytes() == old(self).bytes().update(pa as int, value),
            final(self).free_frames() == old(self).free_frames(),
            final(self).frame_end() == old(self).frame_end(),
    {
        self.bytes.set(pa, value);
    }

    /// Sets every byte of frame `ppn` to zero.
    fn clear_frame(&mut self, ppn: usize)
        requires
            old(self).wf(),
            ppn < old(self).end,
        ensures
            final(self).wf(),
            final(self).bytes() == zero_frame(old(self).bytes(), ppn),
            final(self).current == old(self).current,
            final(self).end == old(self).end,
            final(self).recycled == old(self).recycled,
    {
        assert((ppn + 1) * PAGE_SIZE <= self.end * PAGE_SIZE) by (nonlinear_arith)
            requires
                ppn < self.end,
        ;
        let _len = self.bytes.len();
        let base = ppn * PAGE_SIZE;
        let mut i: usize = 0;
        while i < PAGE_SIZE
            invariant
                i <= PAGE_SIZE,
                base == ppn * PAGE_SIZE,
                ppn < self.end,
                self.wf(),
                self.current == old(self).current,
                self.end == old(self).end,
                self.recycled == old(self).recycled,
                self.bytes@.len() == old(self).bytes@.len(),
                forall|k: int|
                    0 <= k < self.bytes@.len() ==> #[trigger] self.bytes@[k] == if base <= k < base + i {
                        0u8
                    } else {
                        old(self).bytes@[k]
                    },
            decreases PAGE_SIZE - i,
        {
            assert((ppn + 1) * PAGE_SIZE <= self.end * PAGE_SIZE) by (nonlinear_arith)
                requires
                    ppn < self.end,
            ;
            self.bytes.set(base + i, 0u8);
            i = i + 1;
        }
        assert(self.bytes@ =~= zero_frame(old(self).bytes(), ppn));
    }

    /// Takes the next free frame, zeroed, or `None` when no frame is free.
    pub fn frame_alloc(&mut self) -> (r: Option<usize>)
        requires
            old(self).wf(),
        ensures
            final(self).wf(),
            final(self).frame_end() == old(self).frame_end(),
            old(self).free_frames().len() == 0 ==> r is None && *final(self) == *old(self),
            old(self).free_frames().len() > 0 ==> {
                &&& r == Some(old(self).free_frames()[0])
                &&& final(self).free_frames() == old(self).free_frames().drop_first()
                &&& final(self).bytes() == zero_frame(old(self).bytes(), old(self).free_frames()[0])
            },
    {
        proof {
            self.lemma_wf();
        }
        let ghost old_free = self.free_frames();
        if self.recycled.len() > 0 {
            let ppn = self.recycled.pop().unwrap();
            proof {
                assert(old_free[0] == ppn);
                assert(self.free_frames() =~= old_free.drop_first());
                assert(self.recycled@.no_duplicates());
            }
            self.clear_frame(ppn);
            Some(ppn)
        } else if self.current == self.end {
            None
        } else {
            let ppn = self.current;
            self.current = self.current + 1;
            proof {
                assert(self.recycled@.reverse() =~= Seq::<usize>::empty());
                assert(old_free[0] == ppn);
                assert(self.free_frames() =~= old_free.drop_first());
            }
            self.clear_frame(ppn);
            Some(ppn)
        }
    }

    /// Hands frame `ppn`, which must be allocated, back to the allocator: it
    /// is the next frame to be allocated.
    pub fn frame_dealloc(&mut self, ppn: usize)
        requires
            old(self).wf(),
            old(self).is_allocated(ppn),
        ensures
            final(self).wf(),
            final(self).frame_end() == old(self).frame_end(),
            final(self).bytes() == old(self).bytes(),
            final(self).free_frames() == seq![ppn] + old(self).free_frames(),
    {
        let ghost old_free = self.free_frames();
        proof {
            if ppn >= self.current {
                let k = ppn - self.current;
                assert(old_free[self.recycled@.len() + k] == ppn);
            }
            if self.recycled@.contains(ppn) {
                let j = choose|j: int| 0 <= j < self.recycled@.len() && self.recycled@[j] == ppn;
                assert(old_free[self.recycled@.len() - 1 - j] == ppn);
            }
        }
        self.recycled.push(ppn);
        proof {
            assert(self.recycled@.reverse() =~= seq![ppn] + old(self).recycled@.reverse());
            assert(self.free_frames() =~= seq![ppn] + old_free);
        }
    }
}

/// Zeroing frames keeps the length of memory, and every byte of a zeroed
/// frame reads as zero.
pub proof fn lemma_zero_frames(bytes: Seq<u8>, ppns: Seq<usize>)
    ensures
        zero_frames(bytes, ppns).len() == bytes.len(),
        forall|k: int, a: int|
            #![trigger ppns[k], zero_frames(bytes, ppns)[a]]
            0 <= k < ppns.len() && ppns[k] * PAGE_SIZE <= a < (ppns[k] + 1) * PAGE_SIZE && a < bytes.len()
                ==> zero_frames(bytes, ppns)[a] == 0,
    decreases ppns.len(),
{
    if ppns.len() > 0 {
        let d = ppns.drop_last();
        lemma_zero_frames(bytes, d);
        assert forall|k: int, a: int|
            #![trigger ppns[k], zero_frames(bytes, ppns)[a]]
            0 <= k < ppns.len() && ppns[k] * PAGE_SIZE <= a < (ppns[k] + 1) * PAGE_SIZE && a < bytes.len()
                implies zero_frames(bytes, ppns)[a] == 0 by {
            if k < ppns.len() - 1 {
                assert(d[k] == ppns[k]);
            }
        }
    }
}

} // verus!
