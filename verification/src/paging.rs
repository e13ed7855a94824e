//! Page tables and page-table entries.
//!
//! A page table maps virtual page numbers to entries.  An entry records
//! whether the page is currently backed by a frame (`present`), whether it
//! may be written (`writable`), whether it takes part in copy-on-write
//! accounting (`shared`), whether its content currently resides in the swap
//! store (`swapped`), and the target of the mapping (`target`): a physical
//! address while present, a swap-slot token while swapped.

use vstd::prelude::*;
use std::collections::HashMap;

verus! {

broadcast use vstd::std_specs::hash::group_hash_axioms;

/// Size in bytes of one virtual page and of one physical frame.
pub const PAGE_SIZE: usize = 4096;

/// The number of the page (or frame) that contains a byte address.
pub open spec fn page_of(addr: usize) -> usize {
    addr / PAGE_SIZE
}

/// The first byte address of the page that contains `addr`.
pub open spec fn page_start(addr: usize) -> usize {
    ((addr / PAGE_SIZE) * PAGE_SIZE) as usize
}

/// The start of a page never exceeds any address inside the page.
pub proof fn lemma_page_start_le(addr: usize)
    ensures
        (addr / PAGE_SIZE) * PAGE_SIZE <= addr,
        page_start(addr) == (addr / PAGE_SIZE) * PAGE_SIZE,
        page_of(page_start(addr)) == page_of(addr),
{
    assert((addr / PAGE_SIZE) * PAGE_SIZE <= addr && ((addr / PAGE_SIZE) * PAGE_SIZE)
        / (PAGE_SIZE as int) == addr / PAGE_SIZE) by (nonlinear_arith)
        requires PAGE_SIZE == 4096;
}

/// Compute the first byte address of the page that contains `addr`.
pub fn page_start_of(addr: usize) -> (r: usize)
    ensures
        r == page_start(addr),
        page_of(r) == page_of(addr),
{
    proof {
        lemma_page_start_le(addr);
    }
    (addr / PAGE_SIZE) * PAGE_SIZE
}

/// One page-table entry, as the handlers see it.
#[derive(Clone, Copy, Debug, PartialEq, Eq, Structural)]
pub struct PageTableEntry {
    /// The page is backed by a frame and valid for access.
    pub present: bool,
    /// The page may be written through this mapping.
    pub writable: bool,
    /// The page takes part in copy-on-write accounting.
    pub shared: bool,
    /// The page's content resides in the swap store.
    pub swapped: bool,
    /// Physical address of the backing frame while present; swap-slot token
    /// while swapped.
    pub target: usize,
}

/// Attributes configured for a memory region, applied to every entry the
/// region's handler installs.
#[derive(Clone, Copy, Debug, PartialEq, Eq, Structural)]
pub struct MemoryAttr {
    /// Accessible from user mode.
    pub user: bool,
    /// The region must not be written.
    pub readonly: bool,
    /// The region holds executable code.
    pub execute: bool,
}

impl Default for MemoryAttr {
    /// Attributes with every flag clear.
    fn default() -> (r: Self)
        ensures
            r == (MemoryAttr { user: false, readonly: false, execute: false }),
    {
        MemoryAttr { user: false, readonly: false, execute: false }
    }
}

impl MemoryAttr {
    /// The same attributes, marked accessible from user mode.
    pub fn user(self) -> (r: Self)
        ensures
            r == (MemoryAttr { user: true, ..self }),
    {
        MemoryAttr { user: true, ..self }
    }

    /// The same attributes, marked read-only.
    pub fn readonly(self) -> (r: Self)
        ensures
            r == (MemoryAttr { readonly: true, ..self }),
    {
        MemoryAttr { readonly: true, ..self }
    }

    /// The same attributes, marked executable.
    pub fn execute(self) -> (r: Self)
        ensures
            r == (MemoryAttr { execute: true, ..self }),
    {
        MemoryAttr { execute: true, ..self }
    }

    /// Whether the region must not be written.
    pub fn is_readonly(&self) -> (r: bool)
        ensures
            r == self.readonly,
    {
        self.readonly
    }

    /// Write these attributes into the entry for `addr`: the entry becomes
    /// writable exactly when the region is not read-only.
    pub fn apply(&self, pt: &mut PageTable, addr: usize)
        requires
            old(pt)@.contains_key(page_of(addr)),
        ensures
            final(pt)@ == old(pt)@.insert(
                page_of(addr),
                (PageTableEntry { writable: !self.readonly, ..old(pt)@[page_of(addr)] }),
            ),
            final(pt).token() == old(pt).token(),
    {
        let mut e = pt.get_entry(addr).unwrap();
        e.writable = !self.readonly;
        pt.set_entry(addr, e);
    }
}

/// A page table: a token naming the table, and a finite map from virtual
/// page numbers to entries.
pub struct PageTable {
    token: usize,
    entries: HashMap<usize, PageTableEntry>,
}

impl View for PageTable {
    type V = Map<usize, PageTableEntry>;

    /// The table as a map from virtual page numbers to entries.
    closed spec fn view(&self) -> Map<usize, PageTableEntry> {
        self.entries@
    }
}

impl PageTable {
    /// The token that names this table (the model's stand-in for the
    /// hardware root-pointer value).
    pub closed spec fn spec_token(&self) -> usize {
        self.token
    }

    #[verifier::when_used_as_spec(spec_token)]
    pub fn token(&self) -> (t: usize)
        ensures
            t == self.spec_token(),
    {
        self.token
    }

    /// An empty page table with the given token.
    pub fn new(token: usize) -> (pt: Self)
        ensures
            pt@ == Map::<usize, PageTableEntry>::empty(),
            pt.token() == token,
    {
        PageTable { token, entries: HashMap::new() }
    }

    /// The entry for the page containing `addr`, if that page is mapped.
    pub fn get_entry(&self, addr: usize) -> (r: Option<PageTableEntry>)
        ensures
            match r {
                Some(e) => self@.contains_key(page_of(addr)) && e == self@[page_of(addr)],
                None => !self@.contains_key(page_of(addr)),
            },
    {
        let page = addr / PAGE_SIZE;
        match self.entries.get(&page) {
            Some(e) => Some(*e),
            None => None,
        }
    }

    /// Install a fresh present, writable, unshared, unswapped mapping from
    /// the page containing `addr` to the physical address `target`.
    pub fn map(&mut self, addr: usize, target: usize)
        requires
            !old(self)@.contains_key(page_of(addr)),
        ensures
            final(self)@ == old(self)@.insert(
                page_of(addr),
                (PageTableEntry {
                    present: true,
                    writable: true,
                    shared: false,
                    swapped: false,
                    target,
                }),
            ),
            final(self).token() == old(self).token(),
    {
        let page = addr / PAGE_SIZE;
        let e = PageTableEntry {
            present: true,
            writable: true,
            shared: false,
            swapped: false,
            target,
        };
        self.entries.insert(page, e);
    }

    /// Remove the entry for the page containing `addr`.  The entry must be
    /// present: callers that tear down an absent placeholder restore
    /// `present` first, as the swap-backed handler does.
    pub fn unmap(&mut self, addr: usize)
        requires
            old(self)@.contains_key(page_of(addr)),
            old(self)@[page_of(addr)].present,
        ensures
            final(self)@ == old(self)@.remove(page_of(addr)),
            final(self).token() == old(self).token(),
    {
        let page = addr / PAGE_SIZE;
        self.entries.remove(&page);
    }

    /// Overwrite the entry for the (already mapped) page containing `addr`.
    pub fn set_entry(&mut self, addr: usize, e: PageTableEntry)
        requires
            old(self)@.contains_key(page_of(addr)),
        ensures
            final(self)@ == old(self)@.insert(page_of(addr), e),
            final(self).token() == old(self).token(),
    {
        let page = addr / PAGE_SIZE;
        self.entries.insert(page, e);
    }
}

} // verus!
