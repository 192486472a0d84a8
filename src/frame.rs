use vstd::prelude::*;
use vstd::std_specs::cmp::PartialOrdSpec;

verus! {

/// Size in bytes of one frame or page.
pub const PAGE_SIZE: usize = 4096;

/// A physical frame, identified by its index in physical memory.
#[derive(Debug, PartialEq, Eq, Structural, Ord)]
pub struct Frame {
    number: usize,
}

impl Frame {
    /// The frame's number.
    pub closed spec fn view(&self) -> nat {
        self.number as nat
    }

    /// The frame that holds `address`.
    pub fn containing_address(address: usize) -> (r: Frame)
        ensures
            r@ == address as nat / PAGE_SIZE as nat,
            r@ * PAGE_SIZE as nat <= address,
            address < r@ * PAGE_SIZE as nat + PAGE_SIZE as nat,
    {
        let r = Frame { number: address / PAGE_SIZE };
        assert(r@ * 4096 <= address && address < r@ * 4096 + 4096) by (nonlinear_arith)
            requires r@ == address as nat / 4096;
        r
    }

    /// The first physical address of the frame.
    pub fn start_address(&self) -> (r: usize)
        requires
            self@ * PAGE_SIZE as nat <= usize::MAX,
        ensures
            r == self@ * PAGE_SIZE as nat,
    {
        self.number * PAGE_SIZE
    }

    /// A copy of the frame.
    pub fn clone(&self) -> (r: Frame)
        ensures
            r == *self,
    {
        Frame { number: self.number }
    }

    /// The frame with the given number.
    pub fn from_number(number: usize) -> (r: Frame)
        ensures
            r@ == number,
    {
        Frame { number }
    }

    /// Two frames with the same number are the same frame.
    pub proof fn lemma_view_injective(a: Frame, b: Frame)
        ensures
            (a@ == b@) == (a == b),
    {
    }

    /// The frame's number.
    pub fn number(&self) -> (r: usize)
        ensures
            r == self@,
    {
        self.number
    }
}

/// A source of free physical frames.
pub trait FrameAllocator {
    /// A free frame, or `None` when memory is exhausted.
    fn allocate_frame(&mut self) -> Option<Frame>;

    /// Gives a frame back to the allocator.
    fn deallocate_frame(&mut self, frame: Frame);
}

impl PartialOrd for Frame {
    fn partial_cmp(&self, other: &Frame) -> (r: Option<core::cmp::Ordering>) {
        if self.number < other.number {
            Some(core::cmp::Ordering::Less)
        } else if self.number == other.number {
            Some(core::cmp::Ordering::Equal)
        } else {
            Some(core::cmp::Ordering::Greater)
        }
    }
}

impl vstd::std_specs::cmp::PartialOrdSpecImpl for Frame {
    open spec fn obeys_partial_cmp_spec() -> bool {
        true
    }

    open spec fn partial_cmp_spec(&self, other: &Frame) -> Option<core::cmp::Ordering> {
        if self@ < other@ {
            Some(core::cmp::Ordering::Less)
        } else if self@ == other@ {
            Some(core::cmp::Ordering::Equal)
        } else {
            Some(core::cmp::Ordering::Greater)
        }
    }
}

/// Frames are totally ordered, and in the order of their start addresses.
pub proof fn lemma_frame_order(a: Frame, b: Frame)
    ensures
        a.partial_cmp_spec(&b) is Some,
        (a.partial_cmp_spec(&b) == Some(core::cmp::Ordering::Less)) == (a@ * 4096 < b@ * 4096),
        (a.partial_cmp_spec(&b) == Some(core::cmp::Ordering::Equal)) == (a == b),
        (a.partial_cmp_spec(&b) == Some(core::cmp::Ordering::Greater)) == (b@ * 4096 < a@ * 4096),
        (a.partial_cmp_spec(&b) == Some(core::cmp::Ordering::Less)) == (b.partial_cmp_spec(&a)
            == Some(core::cmp::Ordering::Greater)),
{
    Frame::lemma_view_injective(a, b);
}

/// The order of frames is transitive.
pub proof fn lemma_frame_order_transitive(a: Frame, b: Frame, c: Frame)
    requires
        a.partial_cmp_spec(&b) == Some(core::cmp::Ordering::Less),
        b.partial_cmp_spec(&c) == Some(core::cmp::Ordering::Less),
    ensures
        a.partial_cmp_spec(&c) == Some(core::cmp::Ordering::Less),
{
}

} // verus!
