use vstd::prelude::*;

use crate::frame::Frame;

verus! {

/// The entry maps a frame or a next-level table.
pub const PRESENT: u64 = 1;
/// Writes are allowed through the entry.
pub const WRITABLE: u64 = 2;
/// User-mode code may access the mapped memory.
pub const USER_ACCESSIBLE: u64 = 4;
/// Writes go straight to memory.
pub const WRITE_THROUGH: u64 = 8;
/// The mapped memory is not cached.
pub const NO_CACHE: u64 = 16;
/// Set by the processor when the entry is used.
pub const ACCESSED: u64 = 32;
/// Set by the processor when the mapped memory is written.
pub const DIRTY: u64 = 64;
/// The entry maps a huge page.
pub const HUGE_PAGE: u64 = 128;
/// The mapping survives an address-space switch.
pub const GLOBAL: u64 = 256;
/// Code may not be run from the mapped memory.
pub const NO_EXECUTE: u64 = 0x8000_0000_0000_0000;

/// The bits of an entry that hold the physical address of its frame.
pub const ADDRESS_MASK: u64 = 0x000f_ffff_ffff_f000;

/// Frame numbers below this bound fit in an entry's address bits.
pub const FRAME_LIMIT: u64 = 0x100_0000_0000;

/// Whether entry `e` is present.
pub open spec fn is_present(e: u64) -> bool {
    e & PRESENT == PRESENT
}

/// The number of the frame that entry `e` points at.
pub open spec fn entry_frame(e: u64) -> nat {
    ((e & ADDRESS_MASK) >> 12u64) as nat
}

/// The entry that points at frame number `frame` with `flags`.
pub open spec fn make_entry(frame: nat, flags: u64) -> u64 {
    ((frame * 4096) as u64) | flags
}

/// Whether `flags` holds flag bits only, no address bits.
pub open spec fn flags_only(flags: u64) -> bool {
    flags & ADDRESS_MASK == 0
}

proof fn lemma_entry_fields(n: u64, flags: u64)
    requires
        n < 0x100_0000_0000,
        flags & 0x000f_ffff_ffff_f000 == 0,
    ensures
        ((((n * 4096) as u64) | flags) & 0x000f_ffff_ffff_f000) >> 12u64 == n,
        (((n * 4096) as u64) | flags) & 1 == flags & 1,
{
    assert(n * 4096 == (n << 12u64)) by (bit_vector)
        requires n < 0x100_0000_0000u64;
    let m = n << 12u64;
    assert(((m | flags) & 0x000f_ffff_ffff_f000) >> 12u64 == n) by (bit_vector)
        requires m == n << 12u64, n < 0x100_0000_0000u64, flags & 0x000f_ffff_ffff_f000 == 0;
    assert((m | flags) & 1 == flags & 1) by (bit_vector)
        requires m == n << 12u64;
}

/// The entry that points at `frame` with `flags`.
pub fn new_entry(frame: &Frame, flags: u64) -> (r: u64)
    requires
        frame@ < FRAME_LIMIT,
        flags_only(flags),
    ensures
        r == make_entry(frame@, flags),
        entry_frame(r) == frame@,
        is_present(r) == (flags & PRESENT == PRESENT),
{
    let n = frame.number() as u64;
    assert(n == frame@);
    proof {
        lemma_entry_fields(n, flags);
    }
    (n * 4096) | flags
}

/// Whether the entry is present.
pub fn present(e: u64) -> (r: bool)
    ensures
        r == is_present(e),
{
    e & PRESENT == PRESENT
}

/// The frame that a present entry points at, when its number fits a
/// `usize`; `None` otherwise.
pub fn pointed_frame(e: u64) -> (r: Option<Frame>)
    ensures
        r is Some <==> is_present(e) && entry_frame(e) <= usize::MAX,
        r is Some ==> r->0@ == entry_frame(e) && r->0@ < FRAME_LIMIT,
{
    if e & PRESENT == PRESENT {
        let n = (e & ADDRESS_MASK) >> 12u64;
        assert((e & 0x000f_ffff_ffff_f000) >> 12u64 < 0x100_0000_0000u64) by (bit_vector);
        if n <= usize::MAX as u64 {
            Some(Frame::from_number(n as usize))
        } else {
            None
        }
    } else {
        None
    }
}

/// A present entry made with the flag bits of `flags` points at its frame.
pub proof fn lemma_make_entry(frame: nat, flags: u64)
    requires
        frame < FRAME_LIMIT,
        flags_only(flags),
    ensures
        entry_frame(make_entry(frame, flags)) == frame,
        is_present(make_entry(frame, flags)) == (flags & PRESENT == PRESENT),
{
    lemma_entry_fields(frame as u64, flags);
}

} // verus!
