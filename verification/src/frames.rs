//! Physical frames: the bitmap frame allocator and the contents of
//! physical memory.
//!
//! The frame allocator hands out physical page-aligned addresses; frame `i`
//! covers the addresses `[i * PAGE_SIZE, (i + 1) * PAGE_SIZE)`.  Physical
//! memory itself is modelled as one byte page per frame, so that the
//! copy-on-write and swap paths can state exactly which bytes end up where.

use vstd::prelude::*;
use crate::paging::PAGE_SIZE;
use crate::paging::page_of;

verus! {

/// Bitmap allocator over physical frame indices.  `true` means free.
pub struct FrameAllocator {
    free: Vec<bool>,
}

impl View for FrameAllocator {
    type V = Seq<bool>;

    /// One flag per frame: `true` while the frame is free.
    closed spec fn view(&self) -> Seq<bool> {
        self.free@
    }
}

impl FrameAllocator {
    /// Frame indices stay small enough that every frame's physical address
    /// fits in a `usize`.
    pub open spec fn wf(self) -> bool {
        self@.len() * PAGE_SIZE <= usize::MAX
    }

    /// Some frame is still free.
    pub open spec fn has_free(self) -> bool {
        exists|i: int| 0 <= i < self@.len() && self@[i]
    }

    /// The lowest free frame index.
    pub open spec fn first_free(self) -> int {
        choose|i: int| 0 <= i < self@.len() && self@[i] && forall|j: int| 0 <= j < i ==> !self@[j]
    }

    /// An allocator over `n` frames, all free.
    pub fn new(n: usize) -> (r: Self)
        requires
            n * PAGE_SIZE <= usize::MAX,
        ensures
            r@.len() == n,
            forall|i: int| 0 <= i < n ==> r@[i],
            r.wf(),
    {
        let mut free: Vec<bool> = Vec::new();
        let mut k: usize = 0;
        while k < n
            invariant
                k <= n,
                free@.len() == k,
                forall|i: int| 0 <= i < k ==> free@[i],
            decreases n - k,
        {
            free.push(true);
            k = k + 1;
        }
        proof {
            assert(free@.len() * PAGE_SIZE <= usize::MAX) by (nonlinear_arith)
                requires free@.len() == n, n * PAGE_SIZE <= usize::MAX, PAGE_SIZE == 4096;
        }
        FrameAllocator { free }
    }

    /// Allocate the lowest free frame and return its physical address, or
    /// `None` when no frame is free.
    pub fn allocate(&mut self) -> (r: Option<usize>)
        requires
            old(self).wf(),
        ensures
            final(self).wf(),
            match r {
                Some(pa) => {
                    let i = page_of(pa);
                    &&& pa == i * PAGE_SIZE
                    &&& 0 <= i < old(self)@.len()
                    &&& old(self)@[i as int]
                    &&& forall|j: int| 0 <= j < i ==> !old(self)@[j]
                    &&& i == old(self).first_free()
                    &&& final(self)@ == old(self)@.update(i as int, false)
                },
                None => !old(self).has_free() && final(self)@ == old(self)@,
            },
    {
        let n = self.free.len();
        let mut k: usize = 0;
        while k < n
            invariant
                k <= n,
                n == self.free@.len(),
                self.free@ == old(self)@,
                self.free@.len() * PAGE_SIZE <= usize::MAX,
                forall|j: int| 0 <= j < k ==> !self.free@[j],
            decreases n - k,
        {
            if self.free[k] {
                self.free.set(k, false);
                proof {
                    let len = old(self)@.len();
                    assert(k * PAGE_SIZE + PAGE_SIZE <= len * PAGE_SIZE)
                        by (nonlinear_arith)
                        requires (k as nat) < len, PAGE_SIZE == 4096;
                    assert((k * PAGE_SIZE) / (PAGE_SIZE as int) == k as int) by (nonlinear_arith)
                        requires PAGE_SIZE == 4096;
                    assert(old(self).first_free() == k as int) by {
                        let w = k as int;
                        assert(0 <= w < old(self)@.len() && old(self)@[w]
                            && forall|j: int| 0 <= j < w ==> !old(self)@[j]);
                    }
                }
                return Some(k * PAGE_SIZE);
            }
            k = k + 1;
        }
        None
    }

    /// Return the frame containing physical address `target` to the
    /// allocator.  The frame must currently be allocated.
    pub fn deallocate(&mut self, target: usize)
        requires
            page_of(target) < old(self)@.len(),
            !old(self)@[page_of(target) as int],
        ensures
            final(self)@ == old(self)@.update(page_of(target) as int, true),
            old(self).wf() ==> final(self).wf(),
    {
        let i = target / PAGE_SIZE;
        self.free.set(i, true);
    }

    /// How many frames the allocator covers.
    pub fn num_frames(&self) -> (n: usize)
        ensures
            n == self@.len(),
    {
        self.free.len()
    }
}

/// The contents of physical memory: one byte page per frame.
pub struct PhysMemory {
    frames: Vec<Vec<u8>>,
}

impl View for PhysMemory {
    type V = Seq<Seq<u8>>;

    /// The bytes of each frame, indexed by frame number.
    closed spec fn view(&self) -> Seq<Seq<u8>> {
        self.frames.deep_view()
    }
}

/// Copy a byte vector.
pub(crate) fn clone_bytes(v: &Vec<u8>) -> (r: Vec<u8>)
    ensures
        r@ == v@,
{
    let mut r: Vec<u8> = Vec::new();
    let n = v.len();
    let mut i: usize = 0;
    while i < n
        invariant
            i <= n,
            n == v@.len(),
            r@ == v@.subrange(0, i as int),
        decreases n - i,
    {
        r.push(v[i]);
        i = i + 1;
        proof {
            assert(r@ =~= v@.subrange(0, i as int));
        }
    }
    proof {
        assert(r@ =~= v@);
    }
    r
}

impl PhysMemory {
    /// Every frame holds exactly one page of bytes.
    pub open spec fn wf(self) -> bool {
        forall|i: int| 0 <= i < self@.len() ==> (#[trigger] self@[i]).len() == PAGE_SIZE
    }

    /// `n` frames of zeroed memory.
    pub fn new(n: usize) -> (r: Self)
        ensures
            r@.len() == n,
            forall|i: int| 0 <= i < n ==> r@[i] == Seq::new(PAGE_SIZE as nat, |k: int| 0u8),
            r.wf(),
    {
        let mut frames: Vec<Vec<u8>> = Vec::new();
        let mut k: usize = 0;
        while k < n
            invariant
                k <= n,
                frames@.len() == k,
                forall|i: int| 0 <= i < k ==> frames@[i]@ == Seq::new(PAGE_SIZE as nat, |m: int| 0u8),
            decreases n - k,
        {
            let mut page: Vec<u8> = Vec::new();
            let mut b: usize = 0;
            while b < PAGE_SIZE
                invariant
                    b <= PAGE_SIZE,
                    page@.len() == b,
                    forall|m: int| 0 <= m < b ==> page@[m] == 0u8,
                decreases PAGE_SIZE - b,
            {
                page.push(0u8);
                b = b + 1;
            }
            proof {
                assert(page@ =~= Seq::new(PAGE_SIZE as nat, |m: int| 0u8));
            }
            frames.push(page);
            k = k + 1;
        }
        let r = PhysMemory { frames };
        proof {
            assert(forall|i: int| 0 <= i < n ==> #[trigger] r@[i] == r.frames@[i]@);
        }
        r
    }

    /// How many frames physical memory holds.
    pub fn num_frames(&self) -> (n: usize)
        ensures
            n == self@.len(),
    {
        self.frames.len()
    }

    /// The bytes of frame `f`.
    pub fn read_page(&self, f: usize) -> (r: Vec<u8>)
        requires
            f < self@.len(),
        ensures
            r@ == self@[f as int],
            self.wf() ==> r@.len() == PAGE_SIZE,
    {
        proof {
            assert(self@[f as int] == self.frames@[f as int]@);
        }
        clone_bytes(&self.frames[f])
    }

    /// Overwrite frame `f` with one page of bytes.
    pub fn write_page(&mut self, f: usize, data: &Vec<u8>)
        requires
            f < old(self)@.len(),
            data@.len() == PAGE_SIZE,
        ensures
            final(self)@ == old(self)@.update(f as int, data@),
            old(self).wf() ==> final(self).wf(),
    {
        let page = clone_bytes(data);
        self.frames.set(f, page);
        proof {
            assert(self@ =~~= old(self)@.update(f as int, data@));
        }
    }

    /// Copy the bytes of frame `src` into frame `dst`.
    pub fn copy_page(&mut self, src: usize, dst: usize)
        requires
            src < old(self)@.len(),
            dst < old(self)@.len(),
        ensures
            final(self)@ == old(self)@.update(dst as int, old(self)@[src as int]),
            old(self).wf() ==> final(self).wf(),
    {
        proof {
            assert(old(self)@[src as int] == self.frames@[src as int]@);
        }
        let page = clone_bytes(&self.frames[src]);
        self.frames.set(dst, page);
        proof {
            assert(self@ =~~= old(self)@.update(dst as int, old(self)@[src as int]));
        }
    }
}

/// How many frames of the bitmap are free.
pub open spec fn count_free(s: Seq<bool>) -> int
    decreases s.len(),
{
    if s.len() == 0 {
        0
    } else {
        count_free(s.drop_last()) + if s.last() {
            1int
        } else {
            0int
        }
    }
}

/// Allocating one free frame lowers the number of free frames by one.
pub proof fn lemma_count_free_update(s: Seq<bool>, i: int)
    requires
        0 <= i < s.len(),
        s[i],
    ensures
        count_free(s.update(i, false)) == count_free(s) - 1,
    decreases s.len(),
{
    let t = s.update(i, false);
    if i == s.len() - 1 {
        assert(t.drop_last() =~= s.drop_last());
    } else {
        assert(t.drop_last() =~= s.drop_last().update(i, false));
        lemma_count_free_update(s.drop_last(), i);
    }
}

/// Where at least one frame is free, some frame is free.
pub proof fn lemma_count_free_pos(s: Seq<bool>)
    requires
        count_free(s) > 0,
    ensures
        exists|i: int| 0 <= i < s.len() && s[i],
    decreases s.len(),
{
    if s.len() > 0 {
        if s.last() {
            assert(s[s.len() - 1]);
        } else {
            lemma_count_free_pos(s.drop_last());
            let i = choose|i: int| 0 <= i < s.drop_last().len() && s.drop_last()[i];
            assert(s[i]);
        }
    }
}

/// From position `k` on, some frame is free at a position before which
/// none is.
proof fn lemma_min_free_from(s: Seq<bool>, k: int)
    requires
        exists|i: int| k <= i < s.len() && s[i],
        0 <= k,
    ensures
        exists|m: int|
            k <= m < s.len() && s[m] && forall|j: int| k <= j < m ==> !s[j],
    decreases s.len() - k,
{
    if s[k] {
        assert(k <= k < s.len() && s[k] && forall|j: int| k <= j < k ==> !s[j]);
    } else {
        let w = choose|i: int| k <= i < s.len() && s[i];
        assert(k + 1 <= w < s.len() && s[w]);
        lemma_min_free_from(s, k + 1);
        let m = choose|m: int|
            k + 1 <= m < s.len() && s[m] && forall|j: int| k + 1 <= j < m ==> !s[j];
        assert(k <= m < s.len() && s[m] && forall|j: int| k <= j < m ==> !s[j]);
    }
}

/// While some frame is free, `first_free` is the lowest free frame index.
pub proof fn lemma_first_free(a: FrameAllocator)
    requires
        a.has_free(),
    ensures
        0 <= a.first_free() < a@.len(),
        a@[a.first_free()],
        forall|j: int| 0 <= j < a.first_free() ==> !a@[j],
{
    lemma_min_free_from(a@, 0);
}

} // verus!
