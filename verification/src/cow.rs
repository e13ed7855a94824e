//! Shared-memory and copy-on-write accounting.
//!
//! For every physical frame that takes part in sharing, the extension
//! tracks how many virtual mappings reference it for reading and how many
//! for writing.  A write fault uses the totals to distinguish "sole
//! referrer, flip the writable bit in place" from "others still hold the
//! frame, copy it first".
//!
//! An entry whose two counters are both zero means "no shared reference";
//! such entries are reclaimed rather than stored.

use vstd::prelude::*;
use std::collections::HashMap;
use crate::paging::PAGE_SIZE;
use crate::paging::page_of;

verus! {

broadcast use vstd::std_specs::hash::group_hash_axioms;

/// Read-reference count of `frame`: the stored count, or 0 when no entry
/// is stored.
pub open spec fn rc_read(m: Map<usize, (u16, u16)>, frame: usize) -> u16 {
    if m.contains_key(frame) {
        m[frame].0
    } else {
        0
    }
}

/// Write-reference count of `frame`: the stored count, or 0 when no entry
/// is stored.
pub open spec fn rc_write(m: Map<usize, (u16, u16)>, frame: usize) -> u16 {
    if m.contains_key(frame) {
        m[frame].1
    } else {
        0
    }
}

/// Total reference count of `frame`: read references plus write references.
pub open spec fn rc_total(m: Map<usize, (u16, u16)>, frame: usize) -> int {
    rc_read(m, frame) + rc_write(m, frame)
}

/// The reference-count map after registering one more mapping of `frame`,
/// writable or read-only.
pub open spec fn rc_inc(m: Map<usize, (u16, u16)>, frame: usize, writable: bool) -> Map<
    usize,
    (u16, u16),
> {
    if writable {
        m.insert(frame, (rc_read(m, frame), (rc_write(m, frame) + 1) as u16))
    } else {
        m.insert(frame, ((rc_read(m, frame) + 1) as u16, rc_write(m, frame)))
    }
}

/// The reference-count map after releasing one mapping of `frame`,
/// writable or read-only.  An entry whose counters both reach zero is
/// reclaimed.
pub open spec fn rc_dec(m: Map<usize, (u16, u16)>, frame: usize, writable: bool) -> Map<
    usize,
    (u16, u16),
> {
    let r = if writable {
        (rc_read(m, frame), (rc_write(m, frame) - 1) as u16)
    } else {
        ((rc_read(m, frame) - 1) as u16, rc_write(m, frame))
    };
    if r.0 == 0 && r.1 == 0 {
        m.remove(frame)
    } else {
        m.insert(frame, r)
    }
}

/// A map from shared frames to their `(read, write)` reference counts.
pub struct FrameRcMap {
    map: HashMap<usize, (u16, u16)>,
}

impl View for FrameRcMap {
    type V = Map<usize, (u16, u16)>;

    /// The stored counts, by frame number.  Frames without an entry have
    /// count `(0, 0)`.
    closed spec fn view(&self) -> Map<usize, (u16, u16)> {
        self.map@
    }
}

impl Default for FrameRcMap {
    /// A map with no shared frames.
    fn default() -> (r: Self)
        ensures
            r@ == Map::<usize, (u16, u16)>::empty(),
    {
        FrameRcMap { map: HashMap::new() }
    }
}

impl FrameRcMap {
    /// The read-reference count of `frame`.
    pub fn read_count(&self, frame: &usize) -> (c: u16)
        ensures
            c == rc_read(self@, *frame),
    {
        match self.map.get(frame) {
            Some(p) => p.0,
            None => 0,
        }
    }

    /// The write-reference count of `frame`.
    pub fn write_count(&self, frame: &usize) -> (c: u16)
        ensures
            c == rc_write(self@, *frame),
    {
        match self.map.get(frame) {
            Some(p) => p.1,
            None => 0,
        }
    }

    /// Register one more read-only mapping of `frame`.
    pub fn read_increase(&mut self, frame: &usize)
        requires
            rc_read(old(self)@, *frame) < 0xffff,
        ensures
            final(self)@ == rc_inc(old(self)@, *frame, false),
    {
        let r = self.read_count(frame);
        let w = self.write_count(frame);
        self.map.insert(*frame, (r + 1, w));
    }

    /// Release one read-only mapping of `frame`.  Decrementing a zero
    /// counter is an invariant violation and is ruled out.
    pub fn read_decrease(&mut self, frame: &usize)
        requires
            rc_read(old(self)@, *frame) > 0,
        ensures
            final(self)@ == rc_dec(old(self)@, *frame, false),
    {
        let r = self.read_count(frame);
        let w = self.write_count(frame);
        if r == 1 && w == 0 {
            self.map.remove(frame);
        } else {
            self.map.insert(*frame, (r - 1, w));
        }
    }

    /// Register one more writable mapping of `frame`.
    pub fn write_increase(&mut self, frame: &usize)
        requires
            rc_write(old(self)@, *frame) < 0xffff,
        ensures
            final(self)@ == rc_inc(old(self)@, *frame, true),
    {
        let r = self.read_count(frame);
        let w = self.write_count(frame);
        self.map.insert(*frame, (r, w + 1));
    }

    /// Release one writable mapping of `frame`.  Decrementing a zero
    /// counter is an invariant violation and is ruled out.
    pub fn write_decrease(&mut self, frame: &usize)
        requires
            rc_write(old(self)@, *frame) > 0,
        ensures
            final(self)@ == rc_dec(old(self)@, *frame, true),
    {
        let r = self.read_count(frame);
        let w = self.write_count(frame);
        if r == 0 && w == 1 {
            self.map.remove(frame);
        } else {
            self.map.insert(*frame, (r, w - 1));
        }
    }
}

/// Copy-on-write extension: reference-count bookkeeping for shared frames,
/// addressed by the physical address of the frame.
pub struct CowExt {
    /// Reference counts of the shared frames.
    pub rc_map: FrameRcMap,
}

impl CowExt {
    /// A copy-on-write extension with no shared frames.
    pub fn new() -> (r: Self)
        ensures
            r.rc_map@ == Map::<usize, (u16, u16)>::empty(),
    {
        CowExt { rc_map: FrameRcMap::default() }
    }

    /// Register a new mapping of the frame at physical address `target`;
    /// the write counter is incremented when the mapping is writable, the
    /// read counter otherwise.
    pub fn map_to_shared(&mut self, target: usize, writable: bool)
        requires
            writable ==> rc_write(old(self).rc_map@, page_of(target)) < 0xffff,
            !writable ==> rc_read(old(self).rc_map@, page_of(target)) < 0xffff,
        ensures
            final(self).rc_map@ == rc_inc(old(self).rc_map@, page_of(target), writable),
            rc_total(final(self).rc_map@, page_of(target)) == rc_total(
                old(self).rc_map@,
                page_of(target),
            ) + 1,
    {
        let frame = target / PAGE_SIZE;
        match writable {
            true => self.rc_map.write_increase(&frame),
            false => self.rc_map.read_increase(&frame),
        }
        proof {
            lemma_rc_inc_total(old(self).rc_map@, frame, writable, frame);
        }
    }

    /// Release one mapping of the frame at physical address `target`.
    /// Returns true exactly when the frame's total reference count reaches
    /// zero, the signal that the caller must free the frame.  Releasing a
    /// mapping that was never registered is an invariant violation and is
    /// ruled out.
    pub fn unmap_shared(&mut self, target: usize, writable: bool) -> (zero: bool)
        requires
            writable ==> rc_write(old(self).rc_map@, page_of(target)) > 0,
            !writable ==> rc_read(old(self).rc_map@, page_of(target)) > 0,
        ensures
            final(self).rc_map@ == rc_dec(old(self).rc_map@, page_of(target), writable),
            rc_total(final(self).rc_map@, page_of(target)) == rc_total(
                old(self).rc_map@,
                page_of(target),
            ) - 1,
            zero == (rc_total(final(self).rc_map@, page_of(target)) == 0),
    {
        let frame = target / PAGE_SIZE;
        if !writable {
            self.rc_map.read_decrease(&frame);
        } else {
            self.rc_map.write_decrease(&frame);
        }
        proof {
            lemma_rc_dec_total(old(self).rc_map@, frame, writable, frame);
        }
        self.rc_map.read_count(&frame) == 0 && self.rc_map.write_count(&frame) == 0
    }

    /// Whether the frame at physical address `target` has total reference
    /// count exactly one, so that a write fault may upgrade the mapping in
    /// place instead of copying.
    pub fn is_one_shared(&self, target: usize) -> (r: bool)
        ensures
            r == (rc_total(self.rc_map@, page_of(target)) == 1),
    {
        let frame = target / PAGE_SIZE;
        let r = self.rc_map.read_count(&frame);
        let w = self.rc_map.write_count(&frame);
        (r as u32) + (w as u32) == 1
    }
}

/// One registration or release of a shared mapping, as `map_to_shared` and
/// `unmap_shared` perform them.
pub enum CowOp {
    /// `map_to_shared` on the given frame number.
    Share { frame: usize, writable: bool },
    /// `unmap_shared` on the given frame number.
    Unshare { frame: usize, writable: bool },
}

/// The reference-count map after one operation.
pub open spec fn cow_apply_op(m: Map<usize, (u16, u16)>, op: CowOp) -> Map<usize, (u16, u16)> {
    match op {
        CowOp::Share { frame, writable } => rc_inc(m, frame, writable),
        CowOp::Unshare { frame, writable } => rc_dec(m, frame, writable),
    }
}

/// The reference-count map after a sequence of operations, applied in
/// order.
pub open spec fn cow_apply(m: Map<usize, (u16, u16)>, ops: Seq<CowOp>) -> Map<usize, (u16, u16)>
    decreases ops.len(),
{
    if ops.len() == 0 {
        m
    } else {
        cow_apply(cow_apply_op(m, ops[0]), ops.subrange(1, ops.len() as int))
    }
}

/// Whether each operation in turn meets the contract of the call it
/// stands for: a release never decrements a zero counter, and a
/// registration never overflows one.
pub open spec fn cow_ops_valid(m: Map<usize, (u16, u16)>, ops: Seq<CowOp>) -> bool
    decreases ops.len(),
{
    ops.len() == 0 || {
        let ok = match ops[0] {
            CowOp::Share { frame, writable } => if writable {
                rc_write(m, frame) < 0xffff
            } else {
                rc_read(m, frame) < 0xffff
            },
            CowOp::Unshare { frame, writable } => if writable {
                rc_write(m, frame) > 0
            } else {
                rc_read(m, frame) > 0
            },
        };
        ok && cow_ops_valid(cow_apply_op(m, ops[0]), ops.subrange(1, ops.len() as int))
    }
}

/// How many operations of the sequence register a mapping of `frame`,
/// minus how many release one: the number of currently-live shared
/// mappings the sequence leaves on `frame`.
pub open spec fn cow_live_delta(ops: Seq<CowOp>, frame: usize) -> int
    decreases ops.len(),
{
    if ops.len() == 0 {
        0
    } else {
        let d: int = match ops[0] {
            CowOp::Share { frame: g, .. } => if g == frame {
                1
            } else {
                0
            },
            CowOp::Unshare { frame: g, .. } => if g == frame {
                -1
            } else {
                0
            },
        };
        d + cow_live_delta(ops.subrange(1, ops.len() as int), frame)
    }
}

/// Registering a mapping of `f` raises the total of `f` by one and leaves
/// every other frame's total unchanged.
pub proof fn lemma_rc_inc_total(m: Map<usize, (u16, u16)>, f: usize, writable: bool, g: usize)
    requires
        writable ==> rc_write(m, f) < 0xffff,
        !writable ==> rc_read(m, f) < 0xffff,
    ensures
        rc_total(rc_inc(m, f, writable), g) == rc_total(m, g) + if g == f {
            1int
        } else {
            0int
        },
{
}

/// Releasing a mapping of `f` lowers the total of `f` by one and leaves
/// every other frame's total unchanged.
pub proof fn lemma_rc_dec_total(m: Map<usize, (u16, u16)>, f: usize, writable: bool, g: usize)
    requires
        writable ==> rc_write(m, f) > 0,
        !writable ==> rc_read(m, f) > 0,
    ensures
        rc_total(rc_dec(m, f, writable), g) == rc_total(m, g) - if g == f {
            1int
        } else {
            0int
        },
{
}

/// Conservation of copy-on-write references: over any sequence of
/// registrations and releases that respects the calls' contracts, a
/// frame's total reference count changes by exactly the number of
/// registrations minus the number of releases that touch it.  Together
/// with `unmap_shared`'s postcondition — the release reports "free the
/// frame" exactly when the total it leaves is zero — the total always
/// equals the number of currently-live shared mappings that have not been
/// released.
pub proof fn lemma_cow_conservation(m: Map<usize, (u16, u16)>, ops: Seq<CowOp>, frame: usize)
    requires
        cow_ops_valid(m, ops),
    ensures
        rc_total(cow_apply(m, ops), frame) == rc_total(m, frame) + cow_live_delta(ops, frame),
    decreases ops.len(),
{
    if ops.len() > 0 {
        let m1 = cow_apply_op(m, ops[0]);
        match ops[0] {
            CowOp::Share { frame: g, writable } => {
                lemma_rc_inc_total(m, g, writable, frame);
            },
            CowOp::Unshare { frame: g, writable } => {
                lemma_rc_dec_total(m, g, writable, frame);
            },
        }
        lemma_cow_conservation(m1, ops.subrange(1, ops.len() as int), frame);
    }
}

} // verus!
