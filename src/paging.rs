use vstd::prelude::*;

use crate::entry::{
    entry_frame, flags_only, is_present, make_entry, FRAME_LIMIT, PRESENT, WRITABLE,
};
use crate::frame::{Frame, FrameAllocator};
use crate::mapper::{
    level4_kept_but, lemma_walks_same, lemma_walks_same_but, no_new_walks_but, others_same,
    leaf_entry, same_indices, tables_present, translate_from, uses_kept, walk, walks_kept_but,
    walks_same_but, MapError, Mapper,
};
use crate::memory::{FrameUse, PhysicalMemory, TableLevel};
use crate::page::{canonical, p4_of, Page};
use crate::remap::{in_section, map_sections, section_ok, sections_mapped, ElfSection};
use crate::temporary_page::TemporaryPage;

verus! {

/// The table whose frame is loaded in the root-table register, reached
/// through its own recursive slot.
pub struct ActivePageTable {
    mapper: Mapper,
}

impl ActivePageTable {
    /// The mapper of the active table.
    pub closed spec fn mapper_spec(&self) -> Mapper {
        self.mapper
    }

    /// The frame loaded in the root-table register.
    pub open spec fn root(&self) -> nat {
        self.mapper_spec().root()
    }

    /// The physical memory that holds the tables.
    pub open spec fn mem(&self) -> PhysicalMemory {
        self.mapper_spec().mem()
    }

    /// The recursive slot of the active table points at the table itself,
    /// present and writable.
    pub open spec fn wf(&self) -> bool {
        &&& self.mapper_spec().wf()
        &&& self.root() < FRAME_LIMIT
        &&& self.mem().entry(self.root(), 511) == make_entry(self.root(), PRESENT | WRITABLE)
    }

    /// The active table over `memory`, with `root` loaded in the root
    /// register.
    pub fn new(memory: PhysicalMemory, root: Frame) -> (r: ActivePageTable)
        ensures
            r.mem() == memory,
            r.root() == root@,
    {
        ActivePageTable { mapper: Mapper::new(memory, root) }
    }

    /// The mapper that works on the active table.
    pub fn deref(&self) -> (r: &Mapper)
        ensures
            *r == self.mapper_spec(),
    {
        &self.mapper
    }

    /// The table that the mapper of the active table works on is the active
    /// table itself.
    pub proof fn lemma_p4_is_root(&self)
        requires
            self.wf(),
        ensures
            self.mapper_spec().p4() == self.root(),
    {
        assert((1u64 | 2u64) & 0x000f_ffff_ffff_f000u64 == 0) by (bit_vector);
        crate::entry::lemma_make_entry(self.root(), PRESENT | WRITABLE);
    }

    /// The physical address that the canonical `address` translates to in
    /// the active table.
    pub fn translate(&self, address: usize) -> (r: Option<usize>)
        requires
            self.wf(),
            canonical(address as int),
        ensures
            r matches Some(a) ==> translate_from(self.mem(), self.root(), address as nat) == Some(
                a as nat,
            ),
            r is None ==> translate_from(self.mem(), self.root(), address as nat) is None,
    {
        proof {
            self.lemma_p4_is_root();
        }
        self.mapper.translate(address)
    }

    /// Maps `page` to `frame` with `flags` in the active table.
    pub fn map_to<A: FrameAllocator>(
        &mut self,
        page: Page,
        frame: Frame,
        flags: u64,
        allocator: &mut A,
    ) -> (r: Result<(), MapError>)
        requires
            old(self).wf(),
            p4_of(page@) != 511,
            frame@ < FRAME_LIMIT,
            flags_only(flags),
        ensures
            final(self).wf(),
            final(self).root() == old(self).root(),
            r is Ok ==> walk(final(self).mem(), old(self).root(), page@) == Some(frame@),
            r is Ok ==> leaf_entry(final(self).mem(), old(self).root(), page@) == make_entry(
                frame@,
                flags | PRESENT,
            ),
            walks_kept_but(old(self).mem(), final(self).mem(), old(self).root(), page@),
            no_new_walks_but(old(self).mem(), final(self).mem(), old(self).root(), page@),
            tables_present(old(self).mem(), old(self).root(), page@) ==> r is Ok,
    {
        proof {
            self.lemma_p4_is_root();
        }
        self.mapper.map_to(page, frame, flags, allocator)
    }

    /// Maps the page whose address equals the start address of `frame` to
    /// `frame` in the active table.
    pub fn identity_map<A: FrameAllocator>(&mut self, frame: Frame, flags: u64, allocator: &mut A) -> (r:
        Result<(), MapError>)
        requires
            old(self).wf(),
            frame@ * 4096 <= usize::MAX,
            canonical((frame@ * 4096) as int),
            p4_of(frame@) != 511,
            frame@ < FRAME_LIMIT,
            flags_only(flags),
        ensures
            final(self).wf(),
            final(self).root() == old(self).root(),
            r is Ok ==> translate_from(final(self).mem(), old(self).root(), frame@ * 4096) == Some(
                frame@ * 4096,
            ),
            walks_kept_but(old(self).mem(), final(self).mem(), old(self).root(), frame@),
            no_new_walks_but(old(self).mem(), final(self).mem(), old(self).root(), frame@),
            tables_present(old(self).mem(), old(self).root(), frame@) ==> r is Ok,
    {
        proof {
            self.lemma_p4_is_root();
        }
        self.mapper.identity_map(frame, flags, allocator)
    }

    /// Removes the mapping of `page` from the active table; whether there
    /// was one.
    pub fn unmap(&mut self, page: Page) -> (r: bool)
        requires
            old(self).wf(),
            p4_of(page@) != 511,
        ensures
            final(self).wf(),
            final(self).root() == old(self).root(),
            walk(final(self).mem(), old(self).root(), page@) is None,
            r == walk(old(self).mem(), old(self).root(), page@) is Some,
            walks_kept_but(old(self).mem(), final(self).mem(), old(self).root(), page@),
            no_new_walks_but(old(self).mem(), final(self).mem(), old(self).root(), page@),
    {
        proof {
            self.lemma_p4_is_root();
        }
        let r = self.mapper.unmap(page);
        proof {
            let m = self.mem();
            assert forall|r4: nat, q: nat|
                r4 < old(self).mem().frames() && old(self).mem().use_of(r4) == FrameUse::Table(
                    TableLevel::Level4,
                ) && p4_of(q) != 511 && (#[trigger] walk(m, r4, q)) is Some && !(r4 == old(
                    self,
                ).root() && same_indices(q, page@)) implies walk(old(self).mem(), r4, q) is Some by {}
        }
        r
    }

    /// Runs `f` on a mapper that works on `table` instead of the active
    /// table: slot 511 of the active table is pointed at `table` for the
    /// run and restored afterwards, through a view of the active table
    /// that `temporary_page` gives. `f` takes the mapper by value and hands
    /// it back beside its result, which `with` returns.
    pub fn with<F, R>(
        &mut self,
        table: &mut InactivePageTable,
        temporary_page: &mut TemporaryPage,
        f: F,
    ) -> (r: Result<R, MapError>) where F: FnOnce(Mapper) -> (Mapper, R)
        requires
            old(self).wf(),
            old(temporary_page).wf(),
            old(table).frame_spec()@ < old(self).mem().frames(),
            old(table).frame_spec()@ != old(self).root(),
            old(self).mem().use_of(old(table).frame_spec()@) == FrameUse::Table(TableLevel::Level4),
            forall|m: Mapper| m.wf() ==> f.requires((m,)),
            forall|m: Mapper, res: (Mapper, R)|
                #[trigger] f.ensures((m,), res) ==> {
                    &&& res.0.wf()
                    &&& res.0.root() == m.root()
                    &&& uses_kept(m.mem(), res.0.mem())
                    &&& others_same(m.mem(), res.0.mem(), m.p4())
                    &&& res.0.mem().entry(m.p4(), 511) == m.mem().entry(m.p4(), 511)
                },
        ensures
            *final(table) == *old(table),
            forall|q: nat|
                p4_of(q) != 511 && !same_indices(q, old(temporary_page).page_spec()@) ==> #[trigger] walk(
                    final(self).mem(),
                    old(self).root(),
                    q,
                ) == walk(old(self).mem(), old(self).root(), q),
            walk(final(self).mem(), old(self).root(), old(temporary_page).page_spec()@) is None || r is Err,
            final(self).mem().entry(old(table).frame_spec()@, 511) == old(self).mem().entry(
                old(table).frame_spec()@,
                511,
            ),
            final(self).wf(),
            final(self).root() == old(self).root(),
            final(self).mem().entry(old(self).root(), 511) == old(self).mem().entry(
                old(self).root(),
                511,
            ),
            final(temporary_page).wf(),
            final(temporary_page).page_spec() == old(temporary_page).page_spec(),
            r is Ok ==> exists|m: Mapper, m2: Mapper|
                {
                    &&& m.wf()
                    &&& m.root() == old(self).root()
                    &&& m.p4() == old(table).frame_spec()@
                    &&& forall|q: nat|
                        p4_of(q) != 511 ==> #[trigger] walk(m.mem(), m.p4(), q) == walk(
                            old(self).mem(),
                            old(table).frame_spec()@,
                            q,
                        )
                    &&& forall|q: nat|
                        p4_of(q) != 511 ==> #[trigger] walk(
                            final(self).mem(),
                            old(table).frame_spec()@,
                            q,
                        ) == walk(m2.mem(), old(table).frame_spec()@, q)
                    &&& #[trigger] f.ensures((m,), (m2, r->Ok_0))
                },
            tables_present(old(self).mem(), old(self).root(), old(temporary_page).page_spec()@)
                ==> r is Ok,
    {
        let ghost e0 = self.mem();
        let ghost root = self.root();
        let ghost t = table.frame_spec()@;
        let ghost page = temporary_page.page_spec()@;
        let entered = self.enter(table, temporary_page);
        let view = match entered {
            Ok(v) => v,
            Err(e) => {
                proof {
                    assert forall|q: nat|
                        p4_of(q) != 511 && !same_indices(q, page) implies #[trigger] walk(
                        self.mem(),
                        root,
                        q,
                    ) == walk(e0, root, q) by {}
                }
                return Err(e);
            },
        };
        let ghost e1 = self.mem();
        // Run `f` in the new context.
        let mut taken = Mapper::new(PhysicalMemory::new(0), Frame::from_number(0));
        core::mem::swap(&mut taken, &mut self.mapper);
        let ghost before = taken;
        let (after, x) = f(taken);
        self.mapper = after;
        let ghost e2 = self.mem();
        proof {
            assert(f.ensures((before,), (after, x)));
        }
        self.leave(view, temporary_page);
        proof {
            let e3 = self.mem();
            assert(before.mem() == e1 && before.p4() == t);
            assert(e1.use_of(root) == FrameUse::Table(TableLevel::Level4));
            assert(e1.use_of(t) == FrameUse::Table(TableLevel::Level4));
            assert(e2.use_of(t) == FrameUse::Table(TableLevel::Level4));
            assert forall|q: nat|
                p4_of(q) != 511 && !same_indices(q, page) implies #[trigger] walk(e3, root, q) == walk(
                e0,
                root,
                q,
            ) by {
                assert(walk(e1, root, q) == walk(e0, root, q));
                assert(walk(e2, root, q) == walk(e1, root, q));
                assert(walk(e3, root, q) == walk(e2, root, q));
            }
            assert forall|q: nat| p4_of(q) != 511 implies #[trigger] walk(before.mem(), before.p4(), q)
                == walk(e0, t, q) by {
                assert(walk(e1, t, q) == walk(e0, t, q));
            }
            assert forall|q: nat| p4_of(q) != 511 implies #[trigger] walk(e3, t, q) == walk(
                after.mem(),
                t,
                q,
            ) by {
                assert(walk(e3, t, q) == walk(e2, t, q));
            }
        }
        let r: Result<R, MapError> = Ok(x);
        assert(r->Ok_0 == x);
        r
    }

    /// Points slot 511 of the active table at `table`, after mapping
    /// `temporary_page` to the active table's frame; gives that frame, seen
    /// through the temporary page.
    fn enter(&mut self, table: &InactivePageTable, temporary_page: &mut TemporaryPage) -> (r: Result<
        Frame,
        MapError,
    >)
        requires
            old(self).wf(),
            old(temporary_page).wf(),
            table.frame_spec()@ < old(self).mem().frames(),
            table.frame_spec()@ != old(self).root(),
            old(self).mem().use_of(table.frame_spec()@) == FrameUse::Table(TableLevel::Level4),
        ensures
            final(self).mapper_spec().wf(),
            final(self).root() == old(self).root(),
            final(temporary_page).wf(),
            final(temporary_page).page_spec() == old(temporary_page).page_spec(),
            uses_kept(old(self).mem(), final(self).mem()),
            walks_same_but(
                old(self).mem(),
                final(self).mem(),
                old(self).root(),
                old(temporary_page).page_spec()@,
            ),
            level4_kept_but(old(self).mem(), final(self).mem(), old(self).root()),
            r matches Ok(v) ==> v@ == old(self).root() && final(self).mapper_spec().p4()
                == table.frame_spec()@,
            r is Err ==> final(self).wf() && final(self).mem().entry(old(self).root(), 511) == old(
                self,
            ).mem().entry(old(self).root(), 511) && !tables_present(
                old(self).mem(),
                old(self).root(),
                old(temporary_page).page_spec()@,
            ),
    {
        let backup = self.mapper.root_frame();
        proof {
            assert((1u64 | 2u64) & 0x000f_ffff_ffff_f000u64 == 0) by (bit_vector);
            assert((1u64 | 2u64) & 1u64 == 1u64) by (bit_vector);
            crate::entry::lemma_make_entry(backup@, PRESENT | WRITABLE);
        }
        // A view of the active level-4 table, to restore its slot 511 with.
        let ghost e0 = self.mem();
        let ghost page = temporary_page.page_spec()@;
        let mapped = temporary_page.map_table_frame(backup.clone(), &mut self.mapper);
        proof {
            lemma_walks_same_but(e0, self.mem(), backup@, page);
        }
        let p4_table = match mapped {
            Ok(t) => t,
            Err(e) => return Err(e),
        };
        // Overwrite the recursive mapping.
        let inactive = table.p4_frame.clone();
        let ghost e1 = self.mem();
        self.mapper.set_recursive_slot(&backup, &inactive);
        proof {
            let e2 = self.mem();
            lemma_walks_same(e1, e2);
            assert(walks_same_but(e1, e2, backup@, page));
            assert forall|r4: nat, q: nat|
                r4 < e0.frames() && e0.use_of(r4) == FrameUse::Table(TableLevel::Level4) && p4_of(q)
                    != 511 && !(r4 == backup@ && same_indices(q, page)) implies #[trigger] walk(
                e2,
                r4,
                q,
            ) == walk(e0, r4, q) by {
                assert(walk(e1, r4, q) == walk(e0, r4, q));
            }
        }
        Ok(p4_table)
    }

    /// Restores slot 511 of the active table, seen through `view`, and
    /// removes the temporary mapping.
    fn leave(&mut self, view: Frame, temporary_page: &mut TemporaryPage)
        requires
            old(self).mapper_spec().wf(),
            old(temporary_page).wf(),
            view@ == old(self).root(),
            old(self).root() < FRAME_LIMIT,
        ensures
            uses_kept(old(self).mem(), final(self).mem()),
            walks_same_but(
                old(self).mem(),
                final(self).mem(),
                old(self).root(),
                old(temporary_page).page_spec()@,
            ),
            level4_kept_but(old(self).mem(), final(self).mem(), old(self).root()),
            walk(final(self).mem(), old(self).root(), old(temporary_page).page_spec()@) is None,
            final(self).wf(),
            final(self).root() == old(self).root(),
            final(self).mem().entry(old(self).root(), 511) == make_entry(
                old(self).root(),
                PRESENT | WRITABLE,
            ),
            final(temporary_page).wf(),
            final(temporary_page).page_spec() == old(temporary_page).page_spec(),
    {
        proof {
            assert((1u64 | 2u64) & 0x000f_ffff_ffff_f000u64 == 0) by (bit_vector);
            assert((1u64 | 2u64) & 1u64 == 1u64) by (bit_vector);
        }
        let backup = self.mapper.root_frame();
        // Restore the recursive mapping of the active level-4 table.
        let ghost e0 = self.mem();
        let ghost page = temporary_page.page_spec()@;
        self.mapper.set_recursive_slot(&view, &backup);
        let ghost e1 = self.mem();
        proof {
            crate::entry::lemma_make_entry(backup@, PRESENT | WRITABLE);
            lemma_walks_same(e0, e1);
        }
        temporary_page.unmap(&mut self.mapper);
        proof {
            let e2 = self.mem();
            lemma_walks_same_but(e1, e2, backup@, page);
            assert forall|r4: nat, q: nat|
                r4 < e0.frames() && e0.use_of(r4) == FrameUse::Table(TableLevel::Level4) && p4_of(q)
                    != 511 && !(r4 == backup@ && same_indices(q, page)) implies #[trigger] walk(
                e2,
                r4,
                q,
            ) == walk(e0, r4, q) by {
                assert(walk(e1, r4, q) == walk(e0, r4, q));
            }
        }
    }
}

/// A level-4 table that is staged in memory but not loaded in the
/// root-table register.
pub struct InactivePageTable {
    p4_frame: Frame,
}

impl InactivePageTable {
    /// The frame that holds the table.
    pub closed spec fn frame_spec(&self) -> Frame {
        self.p4_frame
    }

    /// Zeroes `frame`, seen through `temporary_page`, and sets up its
    /// recursive slot, which makes it a valid level-4 table.
    pub fn new(
        frame: Frame,
        active_table: &mut ActivePageTable,
        temporary_page: &mut TemporaryPage,
    ) -> (r: Result<InactivePageTable, MapError>)
        requires
            old(active_table).wf(),
            old(temporary_page).wf(),
        ensures
            final(active_table).wf(),
            final(active_table).root() == old(active_table).root(),
            final(active_table).mem().entry(old(active_table).root(), 511)
                == old(active_table).mem().entry(old(active_table).root(), 511),
            final(temporary_page).wf(),
            final(temporary_page).page_spec() == old(temporary_page).page_spec(),
            r matches Ok(t) ==> {
                let n = t.frame_spec()@;
                &&& n == frame@
                &&& n < final(active_table).mem().frames()
                &&& n != final(active_table).root()
                &&& final(active_table).mem().use_of(n) == FrameUse::Table(TableLevel::Level4)
                &&& final(active_table).mem().entry(n, 511) == make_entry(n, PRESENT | WRITABLE)
                &&& is_present(final(active_table).mem().entry(n, 511))
                &&& entry_frame(final(active_table).mem().entry(n, 511)) == n
                &&& forall|j: nat| j < 511 ==> #[trigger] final(active_table).mem().entry(n, j) == 0
            },
            !(frame@ < old(active_table).mem().frames() && frame@ < FRAME_LIMIT && old(
                active_table,
            ).mem().use_of(frame@) == FrameUse::Free) ==> r == Err::<InactivePageTable, MapError>(
                MapError::FrameUnavailable,
            ) && final(active_table).mem() == old(active_table).mem(),
            walks_same_but(
                old(active_table).mem(),
                final(active_table).mem(),
                old(active_table).root(),
                old(temporary_page).page_spec()@,
            ),
            r is Ok ==> walk(
                final(active_table).mem(),
                old(active_table).root(),
                old(temporary_page).page_spec()@,
            ) is None,
            frame@ < old(active_table).mem().frames() && frame@ < FRAME_LIMIT
                && old(active_table).mem().use_of(frame@) == FrameUse::Free && tables_present(
                old(active_table).mem(),
                old(active_table).root(),
                old(temporary_page).page_spec()@,
            ) ==> r is Ok,
    {
        proof {
            assert((1u64 | 2u64) & 0x000f_ffff_ffff_f000u64 == 0) by (bit_vector);
            assert((1u64 | 2u64) & 1u64 == 1u64) by (bit_vector);
            crate::entry::lemma_make_entry(active_table.root(), PRESENT | WRITABLE);
        }
        let ghost e0 = active_table.mem();
        let ghost root = active_table.root();
        let ghost page = temporary_page.page_spec()@;
        let n = frame.number();
        let count = active_table.mapper.memory().frame_count();
        if (n as u64) >= FRAME_LIMIT || n >= count || !matches!(
            active_table.mapper.memory().frame_use(n),
            FrameUse::Free
        ) {
            proof {
                assert forall|r4: nat, q: nat|
                    r4 < e0.frames() && e0.use_of(r4) == FrameUse::Table(TableLevel::Level4) && p4_of(q)
                        != 511 && !(r4 == root && same_indices(q, page)) implies #[trigger] walk(
                    active_table.mem(),
                    r4,
                    q,
                ) == walk(e0, r4, q) by {}
            }
            return Err(MapError::FrameUnavailable);
        }
        let mapped = temporary_page.map_table_frame(frame.clone(), &mut active_table.mapper);
        let ghost e1 = active_table.mem();
        proof {
            lemma_walks_same_but(e0, e1, root, page);
        }
        let table = match mapped {
            Ok(t) => t,
            Err(e) => return Err(e),
        };
        if !matches!(active_table.mapper.memory().frame_use(n), FrameUse::Free) {
            temporary_page.unmap(&mut active_table.mapper);
            proof {
                let e2 = active_table.mem();
                lemma_walks_same_but(e1, e2, root, page);
                assert forall|r4: nat, q: nat|
                    r4 < e0.frames() && e0.use_of(r4) == FrameUse::Table(TableLevel::Level4) && p4_of(q)
                        != 511 && !(r4 == root && same_indices(q, page)) implies #[trigger] walk(
                    e2,
                    r4,
                    q,
                ) == walk(e0, r4, q) by {
                    assert(walk(e1, r4, q) == walk(e0, r4, q));
                }
            }
            return Err(MapError::FrameUnavailable);
        }
        // Now the table can be zeroed.
        active_table.mapper.claim_table(&table, TableLevel::Level4);
        let ghost e2 = active_table.mem();
        // Set up the recursive mapping for the table.
        active_table.mapper.set_recursive_slot(&table, &frame);
        let ghost e3 = active_table.mem();
        proof {
            lemma_walks_same(e1, e2);
            lemma_walks_same(e2, e3);
        }
        temporary_page.unmap(&mut active_table.mapper);
        proof {
            let e4 = active_table.mem();
            lemma_walks_same_but(e3, e4, root, page);
            assert forall|r4: nat, q: nat|
                r4 < e0.frames() && e0.use_of(r4) == FrameUse::Table(TableLevel::Level4) && p4_of(q)
                    != 511 && !(r4 == root && same_indices(q, page)) implies #[trigger] walk(e4, r4, q)
                == walk(e0, r4, q) by {
                assert(walk(e1, r4, q) == walk(e0, r4, q));
                assert(walk(e2, r4, q) == walk(e1, r4, q));
                assert(walk(e3, r4, q) == walk(e2, r4, q));
            }
        }
        Ok(InactivePageTable { p4_frame: frame })
    }

    /// The frame that holds the table.
    pub fn p4_frame(&self) -> (r: Frame)
        ensures
            r == self.frame_spec(),
    {
        self.p4_frame.clone()
    }
}

/// Number of the page reserved for the temporary page.
pub const TEMPORARY_PAGE_NUMBER: usize = 0xcafe_babe;

/// Builds a new address space that identity-maps every page of every loaded
/// section, writable, and returns it staged as an inactive table.
pub fn remap_the_kernel<A: FrameAllocator>(
    allocator: &mut A,
    active_table: &mut ActivePageTable,
    sections: &Vec<ElfSection>,
) -> (r: Result<InactivePageTable, MapError>)
    requires
        old(active_table).wf(),
        forall|k: int| 0 <= k < sections@.len() ==> section_ok(#[trigger] sections@[k]),
        TEMPORARY_PAGE_NUMBER * 4096 <= usize::MAX,
    ensures
        final(active_table).wf(),
        final(active_table).root() == old(active_table).root(),
        final(active_table).mem().entry(old(active_table).root(), 511)
            == old(active_table).mem().entry(old(active_table).root(), 511),
        forall|q: nat|
            p4_of(q) != 511 && !same_indices(q, TEMPORARY_PAGE_NUMBER as nat) ==> #[trigger] walk(
                final(active_table).mem(),
                old(active_table).root(),
                q,
            ) == walk(old(active_table).mem(), old(active_table).root(), q),
        r matches Ok(t) ==> {
            let n = t.frame_spec()@;
            &&& final(active_table).mem().entry(n, 511) == make_entry(n, PRESENT | WRITABLE)
            &&& n < final(active_table).mem().frames()
            &&& n != final(active_table).root()
            &&& final(active_table).mem().use_of(n) == FrameUse::Table(TableLevel::Level4)
            &&& sections_mapped(final(active_table).mem(), n, sections@, sections@.len() as int)
            &&& forall|q: nat|
                q < 0x8_0000_0000 && (#[trigger] walk(final(active_table).mem(), n, q)) is Some
                    ==> exists|k: int| 0 <= k < sections@.len() && #[trigger] in_section(sections@[k], q)
        },
{
    assert(crate::page::p4_of(TEMPORARY_PAGE_NUMBER as nat) == 25);
    let mut temporary_page = TemporaryPage::new(
        Page::from_number(TEMPORARY_PAGE_NUMBER),
        allocator,
    );
    let frame = match allocator.allocate_frame() {
        Some(f) => f,
        None => return Err(MapError::OutOfFrames),
    };
    let ghost m_start = active_table.mem();
    let ghost root = active_table.root();
    let ghost page = temporary_page.page_spec()@;
    assert(page == TEMPORARY_PAGE_NUMBER as nat);
    let new_table = match InactivePageTable::new(frame, active_table, &mut temporary_page) {
        Ok(t) => t,
        Err(e) => {
            proof {
                assert forall|q: nat| p4_of(q) != 511 && !same_indices(q, page) implies #[trigger] walk(
                    active_table.mem(),
                    root,
                    q,
                ) == walk(m_start, root, q) by {}
            }
            return Err(e);
        },
    };
    let ghost m_new = active_table.mem();
    let entered = active_table.enter(&new_table, &mut temporary_page);
    proof {
        assert forall|q: nat| p4_of(q) != 511 && !same_indices(q, page) implies #[trigger] walk(
            active_table.mem(),
            root,
            q,
        ) == walk(m_start, root, q) by {
            assert(walk(m_new, root, q) == walk(m_start, root, q));
        }
    }
    let view = match entered {
        Ok(v) => v,
        Err(e) => return Err(e),
    };
    let ghost m_enter = active_table.mem();
    let outcome = map_sections(&mut active_table.mapper, sections, allocator);
    let ghost m0 = active_table.mem();
    let ghost inactive = new_table.frame_spec()@;
    active_table.leave(view, &mut temporary_page);
    proof {
        assert forall|q: nat| p4_of(q) != 511 && !same_indices(q, page) implies #[trigger] walk(
            active_table.mem(),
            root,
            q,
        ) == walk(m_start, root, q) by {
            assert(walk(m_enter, root, q) == walk(m_start, root, q));
            assert(walk(m0, root, q) == walk(m_enter, root, q));
        }
        if outcome is Ok {
            assert forall|k: int, n: nat|
                0 <= k < sections@.len() && #[trigger] in_section(sections@[k], n) implies walk(
                active_table.mem(),
                inactive,
                n,
            ) == Some(n) by {
                let s = sections@[k];
                assert(section_ok(s));
                assert(p4_of(n) != 511) by (nonlinear_arith)
                    requires
                        n * 4096 < s.addr + s.size,
                        s.addr + s.size <= 0x0000_8000_0000_0000,
                        p4_of(n) == (n / 0x800_0000) % 512,
                ;
                assert(walk(m0, inactive, n) == Some(n));
            }
            assert forall|q: nat|
                q < 0x8_0000_0000 && (#[trigger] walk(active_table.mem(), inactive, q)) is Some implies exists|
                k: int,
            | 0 <= k < sections@.len() && #[trigger] in_section(sections@[k], q) by {
                assert(p4_of(q) != 511 && p4_of(q) < 511) by (nonlinear_arith)
                    requires q < 0x8_0000_0000, p4_of(q) == (q / 0x800_0000) % 512;
                assert(walk(m0, inactive, q) is Some);
                assert(m_new.entry(inactive, p4_of(q)) == 0);
                assert(!crate::entry::is_present(0u64)) by (bit_vector);
                assert(walk(m_new, inactive, q) is None);
                assert(walk(m_enter, inactive, q) is None);
            }
        }
    }
    match outcome {
        Ok(()) => Ok(new_table),
        Err(e) => Err(e),
    }
}

} // verus!
