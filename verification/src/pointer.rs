//! Multi-level pointer resolution: a chain of dereference-then-add hops
//! from a base address to a final one.
//!
//! Offsets are kept in the order a `.CT` file lists them, and the walk runs
//! from the last offset to the first: each hop reads the pointer at the
//! running address and adds the next offset to it, so `n` offsets mean
//! exactly `n` reads, and no read follows the last addition.
//!
//! The walk is a state machine: the caller reads memory where
//! [`PointerWalk::next_read`] says and hands the bytes to
//! [`PointerWalk::advance`] until there is nothing left to read.
use vstd::prelude::*;

use crate::bytes::{le_u64, le_value};

verus! {

/// Pointer width in the target process: 64-bit targets only.
pub const POINTER_SIZE: usize = 8;

/// The longest chain accepted from a `.CT` file or a manual-add form, so a
/// malformed table cannot drive an arbitrarily long sequence of reads on
/// every refresh.
pub const MAX_POINTER_CHAIN_DEPTH: usize = 16;

/// One hop: the pointer read, plus the offset, wrapping as the address
/// arithmetic does.
pub open spec fn hop(pointer: u64, offset: usize) -> usize {
    vstd::wrapping::usize_specs::wrapping_add(pointer as usize, offset)
}

/// Walking `offsets` from `address`, given the pointers `pointers` that the
/// reads return in turn: the addresses read, in order, and the address the
/// walk ends on.
pub open spec fn walk(address: usize, offsets: Seq<usize>, pointers: Seq<u64>) -> (
    Seq<usize>,
    usize,
)
    decreases offsets.len(),
{
    if offsets.len() == 0 {
        (seq![], address)
    } else {
        let next = hop(pointers[0], offsets.last());
        let (reads, end) = walk(next, offsets.drop_last(), pointers.drop_first());
        (seq![address] + reads, end)
    }
}

/// A walk in progress: the running address, and how many offsets are still
/// to be applied (the next hop adds `offsets[remaining - 1]`).
#[derive(Debug, Clone, Copy, PartialEq, Eq, Structural)]
pub struct PointerWalk {
    pub address: usize,
    pub remaining: usize,
}

impl PointerWalk {
    /// A walk of `offsets` starting at `base`.
    pub fn new(base: usize, offsets: &[usize]) -> (w: Self)
        ensures
            w.address == base,
            w.remaining == offsets@.len(),
    {
        PointerWalk { address: base, remaining: offsets.len() }
    }

    /// Where to read the next pointer ([`POINTER_SIZE`] bytes), or `None`
    /// once every offset has been applied and `address` is the answer. An
    /// empty chain reads nothing.
    pub fn next_read(&self) -> (r: Option<usize>)
        ensures
            r == (if self.remaining > 0 {
                Some(self.address)
            } else {
                None::<usize>
            }),
    {
        if self.remaining > 0 {
            Some(self.address)
        } else {
            None
        }
    }

    /// Takes the pointer read at [`Self::next_read`] and applies the next
    /// offset to it.
    pub fn advance(&mut self, offsets: &[usize], bytes: &[u8])
        requires
            0 < old(self).remaining <= offsets@.len(),
            bytes@.len() == POINTER_SIZE,
        ensures
            final(self).remaining == old(self).remaining - 1,
            final(self).address == hop(
                le_value(bytes@) as u64,
                offsets@[old(self).remaining - 1],
            ),
    {
        let pointer = le_u64(bytes);
        let offset = offsets[self.remaining - 1];
        self.address = (pointer as usize).wrapping_add(offset);
        self.remaining = self.remaining - 1;
    }
}

/// A walk reads one pointer per offset, starting at the base; its first
/// hop adds the last offset; and an empty chain ends where it starts
/// without reading anything.
pub proof fn walk_reads_once_per_offset(base: usize, offsets: Seq<usize>, pointers: Seq<u64>)
    ensures
        walk(base, offsets, pointers).0.len() == offsets.len(),
        offsets.len() == 0 ==> walk(base, offsets, pointers) == (Seq::<usize>::empty(), base),
        offsets.len() > 0 ==> walk(base, offsets, pointers).0[0] == base,
        offsets.len() > 1 ==> walk(base, offsets, pointers).0[1] == hop(
            pointers[0],
            offsets.last(),
        ),
    decreases offsets.len(),
{
    if offsets.len() > 0 {
        let next = hop(pointers[0], offsets.last());
        walk_reads_once_per_offset(next, offsets.drop_last(), pointers.drop_first());
        if offsets.len() > 1 {
            let (reads, _) = walk(next, offsets.drop_last(), pointers.drop_first());
            assert(reads[0] == next);
        }
    } else {
        assert(walk(base, offsets, pointers).0 =~= Seq::<usize>::empty());
    }
}

/// The state machine follows the walk: from a state with `remaining`
/// offsets left, one `advance` with the pointer `p` leaves the rest of the
/// walk as the walk from the new address with the remaining pointers.
pub proof fn walk_step(address: usize, offsets: Seq<usize>, remaining: nat, pointers: Seq<u64>)
    requires
        0 < remaining <= offsets.len(),
        pointers.len() > 0,
    ensures
        ({
            let rest = offsets.take(remaining as int);
            let next = hop(pointers[0], offsets[remaining - 1]);
            let after = walk(next, offsets.take(remaining - 1), pointers.drop_first());
            walk(address, rest, pointers) == (seq![address] + after.0, after.1)
        }),
{
    let rest = offsets.take(remaining as int);
    assert(rest.drop_last() =~= offsets.take(remaining - 1));
    assert(rest.last() == offsets[remaining - 1]);
}

} // verus!
