//! The swap manager with the FIFO page-replacement policy.
//!
//! The manager keeps the ordered queue of swappable-page descriptors:
//! pushes append at the tail, the eviction victim is popped from the head,
//! so the oldest swappable page is evicted first.

use vstd::prelude::*;

verus! {

/// Descriptor of one swappable page: the page table it belongs to, the
/// virtual address of the page, and the owning table's token.
#[derive(Clone, Copy, Debug, PartialEq, Eq, Structural)]
pub struct Frame {
    /// Handle naming the page table the descriptor belongs to.
    pub page_table: usize,
    /// The virtual address of the swappable page.
    pub virtaddr: usize,
    /// The owning page table's token.
    pub token: usize,
}

impl Frame {
    /// A descriptor for the page at `virtaddr` in the table named by
    /// `page_table`, whose token is `token`.
    pub fn new(page_table: usize, virtaddr: usize, token: usize) -> (r: Self)
        ensures
            r == (Frame { page_table, virtaddr, token }),
    {
        Frame { page_table, virtaddr, token }
    }

    /// The virtual address of the swappable page.
    pub fn get_virtaddr(&self) -> (r: usize)
        ensures
            r == self.virtaddr,
    {
        self.virtaddr
    }

    /// The owning page table's token.
    pub fn get_token(&self) -> (r: usize)
        ensures
            r == self.token,
    {
        self.token
    }

    /// The page table the descriptor belongs to.
    pub fn get_page_table(&self) -> (r: usize)
        ensures
            r == self.page_table,
    {
        self.page_table
    }
}

/// The index of the first descriptor in `s` that matches the pair
/// `(token, addr)`, or `-1` when none does.
pub open spec fn find_desc(s: Seq<Frame>, token: usize, addr: usize) -> int
    decreases s.len(),
{
    if s.len() == 0 {
        -1
    } else if s[0].token == token && s[0].virtaddr == addr {
        0
    } else {
        let rest = find_desc(s.subrange(1, s.len() as int), token, addr);
        if rest == -1 {
            -1
        } else {
            rest + 1
        }
    }
}

/// Whether some descriptor in `s` matches the pair `(token, addr)`.
pub open spec fn has_desc(s: Seq<Frame>, token: usize, addr: usize) -> bool {
    exists|i: int|
        0 <= i < s.len() && (#[trigger] s[i]).token == token && s[i].virtaddr == addr
}

/// `find_desc` returns the smallest matching index when a match exists,
/// and `-1` exactly when none does.
pub proof fn lemma_find_desc(s: Seq<Frame>, token: usize, addr: usize)
    ensures
        has_desc(s, token, addr) ==> {
            let i = find_desc(s, token, addr);
            &&& 0 <= i < s.len()
            &&& s[i].token == token
            &&& s[i].virtaddr == addr
            &&& forall|j: int|
                0 <= j < i ==> !((#[trigger] s[j]).token == token && s[j].virtaddr
                    == addr)
        },
        !has_desc(s, token, addr) ==> find_desc(s, token, addr) == -1,
    decreases s.len(),
{
    if s.len() > 0 {
        let rest = s.subrange(1, s.len() as int);
        lemma_find_desc(rest, token, addr);
        if !(s[0].token == token && s[0].virtaddr == addr) {
            assert(forall|i: int|
                1 <= i < s.len() ==> s[i] == (#[trigger] rest[i - 1]));
            if has_desc(s, token, addr) {
                let w = choose|i: int|
                    0 <= i < s.len() && (#[trigger] s[i]).token == token
                        && s[i].virtaddr == addr;
                assert(rest[w - 1] == s[w]);
                assert(has_desc(rest, token, addr));
            }
            if has_desc(rest, token, addr) {
                let w = choose|i: int|
                    0 <= i < rest.len() && (#[trigger] rest[i]).token == token
                        && rest[i].virtaddr == addr;
                assert(s[w + 1] == rest[w]);
                assert(has_desc(s, token, addr));
                let i = find_desc(s, token, addr);
                assert(i == find_desc(rest, token, addr) + 1);
                assert forall|j: int|
                    0 <= j < i implies !((#[trigger] s[j]).token == token
                    && s[j].virtaddr == addr) by {
                    if j >= 1 {
                        assert(s[j] == rest[j - 1]);
                    }
                }
            }
        }
    }
}

/// FIFO swap manager: the queue of swappable-page descriptors, oldest
/// first.
pub struct FifoSwapManager {
    deque: Vec<Frame>,
}

impl View for FifoSwapManager {
    type V = Seq<Frame>;

    /// The queued descriptors, head (eviction victim) first.
    closed spec fn view(&self) -> Seq<Frame> {
        self.deque@
    }
}

impl Default for FifoSwapManager {
    /// An empty queue.
    fn default() -> (r: Self)
        ensures
            r@ == Seq::<Frame>::empty(),
    {
        FifoSwapManager { deque: Vec::new() }
    }
}

impl FifoSwapManager {
    /// Periodic hook for policies that need aging; FIFO needs none.
    pub fn tick(&mut self)
        ensures
            final(self)@ == old(self)@,
    {
    }

    /// Append a descriptor at the tail: the newest candidate is evicted
    /// last.  A `(token, address)` pair is tracked at most once.
    pub fn push(&mut self, frame: Frame)
        requires
            !has_desc(old(self)@, frame.token, frame.virtaddr),
        ensures
            final(self)@ == old(self)@.push(frame),
    {
        self.deque.push(frame);
    }

    /// Remove the descriptor matching `(token, addr)`.  Removing a pair
    /// that is not tracked is a contract violation and is ruled out.
    pub fn remove(&mut self, token: usize, addr: usize)
        requires
            has_desc(old(self)@, token, addr),
        ensures
            final(self)@ == old(self)@.remove(find_desc(old(self)@, token, addr)),
    {
        proof {
            lemma_find_desc(self@, token, addr);
        }
        let n = self.deque.len();
        let mut id: usize = 0;
        while id < n
            invariant
                id <= n,
                n == self.deque@.len(),
                self.deque@ == old(self)@,
                has_desc(old(self)@, token, addr),
                0 <= find_desc(old(self)@, token, addr) < n,
                forall|j: int|
                    0 <= j < id ==> !((#[trigger] old(self)@[j]).token == token
                        && old(self)@[j].virtaddr == addr),
                forall|j: int|
                    0 <= j < find_desc(old(self)@, token, addr)
                        ==> !((#[trigger] old(self)@[j]).token == token
                        && old(self)@[j].virtaddr == addr),
                old(self)@[find_desc(old(self)@, token, addr)].token == token,
                old(self)@[find_desc(old(self)@, token, addr)].virtaddr == addr,
            decreases n - id,
        {
            let d = self.deque[id];
            if d.get_virtaddr() == addr && d.get_token() == token {
                proof {
                    let f = find_desc(old(self)@, token, addr);
                    assert(f >= id as int);
                    assert(f <= id as int);
                }
                self.deque.remove(id);
                return ;
            }
            id = id + 1;
        }
        proof {
            let f = find_desc(old(self)@, token, addr);
            assert(false);
        }
    }

    /// Remove and return the head — the oldest descriptor, the eviction
    /// victim — or `None` when the queue is empty.
    pub fn pop(&mut self) -> (r: Option<Frame>)
        ensures
            old(self)@.len() == 0 ==> r is None && final(self)@ == old(self)@,
            old(self)@.len() > 0 ==> r == Some(old(self)@[0]) && final(self)@ == old(
                self,
            )@.subrange(1, old(self)@.len() as int),
    {
        if self.deque.len() == 0 {
            None
        } else {
            let r = self.deque.remove(0);
            proof {
                assert(final(self)@ =~= old(self)@.subrange(1, old(self)@.len() as int));
            }
            Some(r)
        }
    }
}

/// The queue after pushing every descriptor of `ds` in order.
pub open spec fn push_all(s: Seq<Frame>, ds: Seq<Frame>) -> Seq<Frame>
    decreases ds.len(),
{
    if ds.len() == 0 {
        s
    } else {
        push_all(s.push(ds[0]), ds.subrange(1, ds.len() as int))
    }
}

/// FIFO ordering: pushing descriptors onto a queue, with no intervening
/// removes, appends them in push order, and from a queue that holds `t`
/// the k-th subsequent pop returns `t[k]`.  So for pushes onto an empty
/// queue, pops return the descriptors in exactly the order they were
/// pushed.
pub proof fn lemma_fifo_order(s: Seq<Frame>, ds: Seq<Frame>, k: int)
    ensures
        push_all(s, ds) == s + ds,
        0 <= k < ds.len() ==> push_all(Seq::<Frame>::empty(), ds)[k] == ds[k],
    decreases ds.len(),
{
    if ds.len() == 0 {
        assert(push_all(s, ds) =~= s + ds);
    } else {
        let rest = ds.subrange(1, ds.len() as int);
        lemma_fifo_order(s.push(ds[0]), rest, k - 1);
        assert(push_all(s, ds) =~= s + ds);
        if 0 <= k < ds.len() {
            lemma_fifo_order(Seq::<Frame>::empty().push(ds[0]), rest, k - 1);
            assert(push_all(Seq::<Frame>::empty(), ds) =~= Seq::<Frame>::empty() + ds);
        }
    }
}

} // verus!
