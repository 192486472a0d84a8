use vstd::prelude::*;

use crate::entry::FRAME_LIMIT;
use crate::frame::{Frame, FrameAllocator};
use crate::mapper::{
    level4_kept_but, no_new_walks, no_new_walks_but, tables_present, walk, walks_kept_but, MapError,
    Mapper,
};
use crate::page::{p4_of, Page};

verus! {

/// A pool of at most three frames, enough for the tables that one page
/// mapping may need.
pub struct TinyAllocator {
    frames: Vec<Option<Frame>>,
}

impl TinyAllocator {
    /// The slots of the pool, each empty or holding a frame.
    pub closed spec fn view(&self) -> Seq<Option<Frame>> {
        self.frames@
    }

    /// A pool of three slots, filled in turn with what three calls of
    /// `allocator` handed out.
    pub fn new<A: FrameAllocator>(allocator: &mut A) -> (r: TinyAllocator)
        ensures
            r@.len() == 3,
    {
        let mut frames: Vec<Option<Frame>> = Vec::new();
        frames.push(allocator.allocate_frame());
        frames.push(allocator.allocate_frame());
        frames.push(allocator.allocate_frame());
        TinyAllocator { frames }
    }
}

impl FrameAllocator for TinyAllocator {
    fn allocate_frame(&mut self) -> (r: Option<Frame>) {
        let mut k: usize = 0;
        while k < self.frames.len()
            decreases self.frames@.len() - k,
        {
            match &self.frames[k] {
                Some(f) => {
                    let frame = f.clone();
                    self.frames.set(k, None);
                    return Some(frame);
                },
                None => {},
            }
            k = k + 1;
        }
        None
    }

    fn deallocate_frame(&mut self, frame: Frame) {
        let mut k: usize = 0;
        while k < self.frames.len()
            decreases self.frames@.len() - k,
        {
            if self.frames[k].is_none() {
                self.frames.set(k, Some(frame));
                return;
            }
            k = k + 1;
        }
    }
}

/// A reserved virtual page through which a frame that is not reachable
/// otherwise is seen as a page table, with its own pool of frames for the
/// tables that mapping it needs.
pub struct TemporaryPage {
    page: Page,
    allocator: TinyAllocator,
}

impl TemporaryPage {
    /// The reserved page.
    pub closed spec fn page_spec(&self) -> Page {
        self.page
    }

    /// The slots of the page's own frame pool.
    pub closed spec fn pool(&self) -> Seq<Option<Frame>> {
        self.allocator@
    }

    /// The reserved page lies outside the recursive region.
    pub open spec fn wf(&self) -> bool {
        p4_of(self.page_spec()@) != 511
    }

    /// A temporary page at `page`, with three frames from `allocator`.
    pub fn new<A: FrameAllocator>(page: Page, allocator: &mut A) -> (r: TemporaryPage)
        requires
            p4_of(page@) != 511,
        ensures
            r.wf(),
            r.page_spec() == page,
            r.pool().len() == 3,
    {
        TemporaryPage { page, allocator: TinyAllocator::new(allocator) }
    }

    /// The reserved page.
    pub fn page(&self) -> (r: Page)
        ensures
            r == self.page_spec(),
    {
        self.page
    }

    /// Maps the reserved page to `frame` in the mapper's tables and gives the
    /// frame that the page now reaches, seen as a table.
    pub fn map_table_frame(&mut self, frame: Frame, mapper: &mut Mapper) -> (r: Result<
        Frame,
        MapError,
    >)
        requires
            old(self).wf(),
            old(mapper).wf(),
            frame@ < FRAME_LIMIT,
        ensures
            final(self).wf(),
            final(self).page_spec() == old(self).page_spec(),
            final(mapper).wf(),
            final(mapper).root() == old(mapper).root(),
            final(mapper).p4() == old(mapper).p4(),
            level4_kept_but(old(mapper).mem(), final(mapper).mem(), old(mapper).p4()),
            final(mapper).mem().entry(old(mapper).root(), 511) == old(mapper).mem().entry(
                old(mapper).root(),
                511,
            ),
            r matches Ok(t) ==> t@ == frame@,
            r is Ok ==> walk(final(mapper).mem(), final(mapper).p4(), old(self).page_spec()@) == Some(
                frame@,
            ),
            walks_kept_but(old(mapper).mem(), final(mapper).mem(), old(mapper).p4(), old(self).page_spec()@),
            no_new_walks_but(old(mapper).mem(), final(mapper).mem(), old(mapper).p4(), old(self).page_spec()@),
            tables_present(old(mapper).mem(), old(mapper).p4(), old(self).page_spec()@) ==> r is Ok
                && forall|u: nat|
                u < old(mapper).mem().frames() ==> #[trigger] final(mapper).mem().use_of(u) == old(
                    mapper,
                ).mem().use_of(u),
    {
        let writable = crate::entry::WRITABLE;
        assert(2u64 & 0x000f_ffff_ffff_f000u64 == 0) by (bit_vector);
        match mapper.map_to(self.page, frame.clone(), writable, &mut self.allocator) {
            Ok(()) => {},
            Err(e) => return Err(e),
        }
        let n = frame.number();
        proof {
            assert(walk(mapper.mem(), mapper.p4(), self.page@) == Some(frame@));
        }
        Ok(Frame::from_number(n))
    }

    /// Removes the mapping of the reserved page.
    pub fn unmap(&mut self, mapper: &mut Mapper)
        requires
            old(self).wf(),
            old(mapper).wf(),
        ensures
            *final(self) == *old(self),
            final(mapper).wf(),
            final(mapper).root() == old(mapper).root(),
            final(mapper).p4() == old(mapper).p4(),
            level4_kept_but(old(mapper).mem(), final(mapper).mem(), old(mapper).p4()),
            final(mapper).mem().entry(old(mapper).root(), 511) == old(mapper).mem().entry(
                old(mapper).root(),
                511,
            ),
            walk(final(mapper).mem(), final(mapper).p4(), old(self).page_spec()@) is None,
            walks_kept_but(old(mapper).mem(), final(mapper).mem(), old(mapper).p4(), old(self).page_spec()@),
            no_new_walks(old(mapper).mem(), final(mapper).mem()),
    {
        mapper.unmap(self.page);
    }
}

} // verus!
