//! The address space the scan engine walks: which regions the OS reports
//! are scanned, and how the walk over them moves on.
use vstd::prelude::*;

verus! {

/// A single committed, writable, non-guard memory region in the target
/// process.
#[derive(Debug, Clone, Copy, PartialEq, Eq, Structural)]
pub struct MemoryRegion {
    pub base_address: usize,
    pub size: usize,
}

/// The state of committed memory.
pub const MEM_COMMIT: u32 = 0x1000;

pub const PAGE_NOACCESS: u32 = 0x01;

pub const PAGE_READWRITE: u32 = 0x04;

pub const PAGE_WRITECOPY: u32 = 0x08;

pub const PAGE_EXECUTE_READWRITE: u32 = 0x40;

pub const PAGE_EXECUTE_WRITECOPY: u32 = 0x80;

/// A modifier bit, or'd into a protection value rather than a value of its
/// own.
pub const PAGE_GUARD: u32 = 0x100;

/// One region as the OS describes it.
#[derive(Debug, Clone, Copy, PartialEq, Eq, Structural)]
pub struct RegionInfo {
    pub base_address: usize,
    pub size: usize,
    pub state: u32,
    pub protect: u32,
}

/// A region is scanned when it is committed, its protection without the
/// guard bit is one of the writable ones, and it is neither a guard page
/// nor inaccessible.
pub open spec fn scannable(info: RegionInfo) -> bool {
    let base_protect = info.protect & !PAGE_GUARD;
    let guarded_or_noaccess = (info.protect & PAGE_GUARD) != 0 || base_protect == PAGE_NOACCESS;
    let writable = base_protect == PAGE_READWRITE || base_protect == PAGE_WRITECOPY || base_protect
        == PAGE_EXECUTE_READWRITE || base_protect == PAGE_EXECUTE_WRITECOPY;
    info.state == MEM_COMMIT && writable && !guarded_or_noaccess
}

pub fn is_scannable(info: RegionInfo) -> (r: bool)
    ensures
        r == scannable(info),
{
    let base_protect = info.protect & !PAGE_GUARD;
    let guarded_or_noaccess = (info.protect & PAGE_GUARD) != 0 || base_protect == PAGE_NOACCESS;
    let writable = base_protect == PAGE_READWRITE || base_protect == PAGE_WRITECOPY || base_protect
        == PAGE_EXECUTE_READWRITE || base_protect == PAGE_EXECUTE_WRITECOPY;
    info.state == MEM_COMMIT && writable && !guarded_or_noaccess
}

/// A walk over the address space, one region at a time: the caller asks
/// the OS about [`RegionWalk::next_query`] and hands the answer to
/// [`RegionWalk::step`].
#[derive(Debug, Clone, Copy, PartialEq, Eq, Structural)]
pub struct RegionWalk {
    pub address: usize,
    pub done: bool,
}

impl RegionWalk {
    /// A walk from the bottom of the address space.
    pub fn new() -> (w: Self)
        ensures
            w.address == 0,
            !w.done,
    {
        RegionWalk { address: 0, done: false }
    }

    /// The address to ask about next, or `None` once the walk is over.
    pub fn next_query(&self) -> (r: Option<usize>)
        ensures
            r == (if self.done {
                None::<usize>
            } else {
                Some(self.address)
            }),
    {
        if self.done {
            None
        } else {
            Some(self.address)
        }
    }

    /// Takes what the OS reported for [`Self::next_query`] (`None` past the
    /// end of the address space) and moves past it; gives the region if it
    /// is one to scan. A report that would not move the walk forward, or
    /// would run past the end of the address space, ends the walk.
    pub fn step(&mut self, info: Option<RegionInfo>) -> (r: Option<MemoryRegion>)
        requires
            !old(self).done,
        ensures
            match info {
                None => r is None && final(self).done,
                Some(i) => {
                    &&& r == (if scannable(i) {
                        Some(MemoryRegion { base_address: i.base_address, size: i.size })
                    } else {
                        None::<MemoryRegion>
                    })
                    &&& if i.base_address + i.size > usize::MAX || i.base_address + i.size
                        <= old(self).address {
                        final(self).done
                    } else {
                        !final(self).done && final(self).address == i.base_address + i.size
                    }
                },
            },
            !final(self).done ==> final(self).address > old(self).address,
    {
        match info {
            None => {
                self.done = true;
                None
            },
            Some(i) => {
                let region = if is_scannable(i) {
                    Some(MemoryRegion { base_address: i.base_address, size: i.size })
                } else {
                    None
                };
                match i.base_address.checked_add(i.size) {
                    None => {
                        self.done = true;
                    },
                    Some(next) => {
                        if next <= self.address {
                            self.done = true;
                        } else {
                            self.address = next;
                        }
                    },
                }
                region
            },
        }
    }
}

/// A region is scanned exactly when it is committed (`0x1000`), carries
/// no guard bit (`0x100`), and its protection is read-write (`0x04`),
/// write-copy (`0x08`), execute-read-write (`0x40`) or
/// execute-write-copy (`0x80`).
pub proof fn exactly_the_committed_writable_regions_are_scanned(info: RegionInfo)
    ensures
        scannable(info) <==> (info.state == 0x1000u32 && info.protect & 0x100u32 == 0u32 && (
        info.protect == 0x04u32 || info.protect == 0x08u32 || info.protect == 0x40u32 || info.protect
            == 0x80u32)),
{
    let p = info.protect;
    assert(p & 0x100u32 == 0u32 ==> p & !0x100u32 == p) by (bit_vector);
    assert(p & 0x100u32 != 0u32 ==> (p & !0x100u32) & 0x100u32 == 0u32) by (bit_vector);
    assert((p & !0x100u32 == 0x04u32 || p & !0x100u32 == 0x08u32 || p & !0x100u32 == 0x40u32
        || p & !0x100u32 == 0x80u32) && p & 0x100u32 == 0u32 ==> p & !0x100u32 == p) by (bit_vector);
}

} // verus!
