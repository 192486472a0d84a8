use vstd::prelude::*;

use crate::entry::{
    entry_frame, flags_only, is_present, make_entry, new_entry, pointed_frame, FRAME_LIMIT,
    PRESENT, WRITABLE,
};
use crate::frame::{Frame, FrameAllocator, PAGE_SIZE};
use crate::memory::{FrameUse, PhysicalMemory, TableLevel};
use crate::page::{canonical, p1_of, p2_of, p3_of, p4_of, Page};

verus! {

/// Why a mapping could not be installed.
#[derive(Debug, Clone, Copy, PartialEq, Eq, Structural)]
pub enum MapError {
    /// The allocator had no frame left for a new table.
    OutOfFrames,
    /// The allocator handed out a frame that cannot hold a new table: it
    /// lies outside physical memory or is already in use.
    FrameUnavailable,
}

/// The frame that the walk for page number `n` reaches from the level-4
/// table in frame `p4`, if every entry on the way is present.
pub open spec fn walk(mem: PhysicalMemory, p4: nat, n: nat) -> Option<nat> {
    if p4 >= mem.frames() || !is_present(mem.entry(p4, p4_of(n))) {
        None
    } else {
        let p3 = entry_frame(mem.entry(p4, p4_of(n)));
        if p3 >= mem.frames() || !is_present(mem.entry(p3, p3_of(n))) {
            None
        } else {
            let p2 = entry_frame(mem.entry(p3, p3_of(n)));
            if p2 >= mem.frames() || !is_present(mem.entry(p2, p2_of(n))) {
                None
            } else {
                let p1 = entry_frame(mem.entry(p2, p2_of(n)));
                if p1 >= mem.frames() || !is_present(mem.entry(p1, p1_of(n))) {
                    None
                } else {
                    Some(entry_frame(mem.entry(p1, p1_of(n))))
                }
            }
        }
    }
}

/// The physical address that virtual `address` translates to from the
/// level-4 table in frame `p4`.
pub open spec fn translate_from(mem: PhysicalMemory, p4: nat, address: nat) -> Option<nat> {
    match walk(mem, p4, address / 4096) {
        Some(f) => if f * 4096 + address % 4096 <= usize::MAX {
            Some(f * 4096 + address % 4096)
        } else {
            None
        },
        None => None,
    }
}

/// Every table on the walk for page number `n` from frame `p4` is present.
pub open spec fn tables_present(mem: PhysicalMemory, p4: nat, n: nat) -> bool {
    &&& is_present(mem.entry(p4, p4_of(n)))
    &&& is_present(mem.entry(entry_frame(mem.entry(p4, p4_of(n))), p3_of(n)))
    &&& is_present(
        mem.entry(entry_frame(mem.entry(entry_frame(mem.entry(p4, p4_of(n))), p3_of(n))), p2_of(n)),
    )
}

/// Page numbers `a` and `b` have the same four table indices.
pub open spec fn same_indices(a: nat, b: nat) -> bool {
    &&& p4_of(a) == p4_of(b)
    &&& p3_of(a) == p3_of(b)
    &&& p2_of(a) == p2_of(b)
    &&& p1_of(a) == p1_of(b)
}

/// The level-3 table on the walk for page number `q` from frame `r4`.
pub open spec fn path3(mem: PhysicalMemory, r4: nat, q: nat) -> nat {
    entry_frame(mem.entry(r4, p4_of(q)))
}

/// The level-2 table on the walk for page number `q` from frame `r4`.
pub open spec fn path2(mem: PhysicalMemory, r4: nat, q: nat) -> nat {
    entry_frame(mem.entry(path3(mem, r4, q), p3_of(q)))
}

/// The level-1 table on the walk for page number `q` from frame `r4`.
pub open spec fn path1(mem: PhysicalMemory, r4: nat, q: nat) -> nat {
    entry_frame(mem.entry(path2(mem, r4, q), p2_of(q)))
}

/// The level-1 entry on the walk for page number `n` from frame `p4`.
pub open spec fn leaf_entry(mem: PhysicalMemory, p4: nat, n: nat) -> u64 {
    mem.entry(path1(mem, p4, n), p1_of(n))
}

/// Every complete walk from a level-4 table, outside the recursive region,
/// reaches the same frame as before, but the walks from frame `p4` for
/// page numbers with the indices of `n`.
pub open spec fn walks_kept_but(old: PhysicalMemory, new: PhysicalMemory, p4: nat, n: nat) -> bool {
    forall|r4: nat, q: nat|
        r4 < old.frames() && old.use_of(r4) == FrameUse::Table(TableLevel::Level4) && p4_of(q)
            != 511 && (#[trigger] walk(old, r4, q)) is Some && !(r4 == p4 && same_indices(q, n))
            ==> walk(new, r4, q) == walk(old, r4, q)
}

/// No walk from a level-4 table, outside the recursive region, is complete
/// that was not complete before, but the walks from frame `p4` for page
/// numbers with the indices of `n`.
pub open spec fn no_new_walks_but(old: PhysicalMemory, new: PhysicalMemory, p4: nat, n: nat) -> bool {
    forall|r4: nat, q: nat|
        r4 < old.frames() && old.use_of(r4) == FrameUse::Table(TableLevel::Level4) && p4_of(q)
            != 511 && (#[trigger] walk(new, r4, q)) is Some && !(r4 == p4 && same_indices(q, n))
            ==> walk(old, r4, q) is Some
}

/// No walk from a level-4 table, outside the recursive region, is complete
/// that was not complete before.
pub open spec fn no_new_walks(old: PhysicalMemory, new: PhysicalMemory) -> bool {
    forall|r4: nat, q: nat|
        r4 < old.frames() && old.use_of(r4) == FrameUse::Table(TableLevel::Level4) && p4_of(q)
            != 511 && (#[trigger] walk(new, r4, q)) is Some ==> walk(old, r4, q) is Some
}

/// Every walk from a level-4 table, outside the recursive region, ends as
/// before, complete or not, but the walks from frame `p4` for page numbers
/// with the indices of `n`.
pub open spec fn walks_same_but(old: PhysicalMemory, new: PhysicalMemory, p4: nat, n: nat) -> bool {
    forall|r4: nat, q: nat|
        #![trigger walk(old, r4, q)]
        #![trigger walk(new, r4, q)]
        r4 < old.frames() && old.use_of(r4) == FrameUse::Table(TableLevel::Level4) && p4_of(q) != 511
            && !(r4 == p4 && same_indices(q, n)) ==> walk(new, r4, q) == walk(old, r4, q)
}

/// Every walk from a level-4 table other than frame `p4`, outside the
/// recursive region, ends as before, complete or not.
pub open spec fn others_same(old: PhysicalMemory, new: PhysicalMemory, p4: nat) -> bool {
    forall|r4: nat, q: nat|
        #![trigger walk(old, r4, q)]
        #![trigger walk(new, r4, q)]
        r4 < old.frames() && old.use_of(r4) == FrameUse::Table(TableLevel::Level4) && p4_of(q) != 511
            && r4 != p4 ==> walk(new, r4, q) == walk(old, r4, q)
}

/// Walks kept and no new ones make the same walks.
pub proof fn lemma_walks_same_but(old: PhysicalMemory, new: PhysicalMemory, p4: nat, n: nat)
    requires
        walks_kept_but(old, new, p4, n),
        no_new_walks_but(old, new, p4, n),
    ensures
        walks_same_but(old, new, p4, n),
        others_same(old, new, p4),
{
    assert forall|r4: nat, q: nat|
        r4 < old.frames() && old.use_of(r4) == FrameUse::Table(TableLevel::Level4) && p4_of(q) != 511
            && !(r4 == p4 && same_indices(q, n)) implies walk(new, r4, q) == walk(old, r4, q) by {
        if walk(old, r4, q) is Some {
        } else if walk(new, r4, q) is Some {
        }
    }
}

/// Walks kept and no new ones, with no exception, make the same walks.
pub proof fn lemma_walks_same(old: PhysicalMemory, new: PhysicalMemory)
    requires
        walks_kept(old, new),
        no_new_walks(old, new),
    ensures
        forall|p4: nat, n: nat| walks_same_but(old, new, p4, n),
        forall|p4: nat| others_same(old, new, p4),
{
    assert forall|r4: nat, q: nat|
        r4 < old.frames() && old.use_of(r4) == FrameUse::Table(TableLevel::Level4) && p4_of(q) != 511
            implies walk(new, r4, q) == walk(old, r4, q) by {
        if walk(old, r4, q) is Some {
        } else if walk(new, r4, q) is Some {
        }
    }
}

/// Every complete walk from a level-4 table, outside the recursive region,
/// reaches the same frame as before.
pub open spec fn walks_kept(old: PhysicalMemory, new: PhysicalMemory) -> bool {
    forall|r4: nat, q: nat|
        r4 < old.frames() && old.use_of(r4) == FrameUse::Table(TableLevel::Level4) && p4_of(q)
            != 511 && (#[trigger] walk(old, r4, q)) is Some ==> walk(new, r4, q) == walk(old, r4, q)
}

/// The tables on a complete walk from a level-4 table are linked to the
/// levels below, one after the other.
proof fn lemma_path(mem: PhysicalMemory, r4: nat, q: nat)
    requires
        mem.wf(),
        r4 < mem.frames(),
        mem.use_of(r4) == FrameUse::Table(TableLevel::Level4),
        p4_of(q) != 511,
        walk(mem, r4, q) is Some,
    ensures
        p4_of(q) < 512 && p3_of(q) < 512 && p2_of(q) < 512 && p1_of(q) < 512,
        mem.is_link(r4, p4_of(q)),
        path3(mem, r4, q) < mem.frames(),
        mem.use_of(path3(mem, r4, q)) == FrameUse::Table(TableLevel::Level3),
        mem.is_link(path3(mem, r4, q), p3_of(q)),
        path2(mem, r4, q) < mem.frames(),
        mem.use_of(path2(mem, r4, q)) == FrameUse::Table(TableLevel::Level2),
        mem.is_link(path2(mem, r4, q), p2_of(q)),
        path1(mem, r4, q) < mem.frames(),
        mem.use_of(path1(mem, r4, q)) == FrameUse::Table(TableLevel::Level1),
        is_present(mem.entry(path1(mem, r4, q), p1_of(q))),
        walk(mem, r4, q) == Some(entry_frame(mem.entry(path1(mem, r4, q), p1_of(q)))),
{
    assert(mem.link_ok(r4, p4_of(q), mem.entry(r4, p4_of(q))));
    let q3 = path3(mem, r4, q);
    assert(mem.link_ok(q3, p3_of(q), mem.entry(q3, p3_of(q))));
    let q2 = path2(mem, r4, q);
    assert(mem.link_ok(q2, p2_of(q), mem.entry(q2, p2_of(q))));
}

/// A walk whose four entries are unchanged reaches the same frame.
proof fn lemma_walk_same(old: PhysicalMemory, new: PhysicalMemory, r4: nat, q: nat)
    requires
        old.wf(),
        r4 < old.frames(),
        old.use_of(r4) == FrameUse::Table(TableLevel::Level4),
        p4_of(q) != 511,
        walk(old, r4, q) is Some,
        new.frames() == old.frames(),
        new.entry(r4, p4_of(q)) == old.entry(r4, p4_of(q)),
        new.entry(path3(old, r4, q), p3_of(q)) == old.entry(path3(old, r4, q), p3_of(q)),
        new.entry(path2(old, r4, q), p2_of(q)) == old.entry(path2(old, r4, q), p2_of(q)),
        new.entry(path1(old, r4, q), p1_of(q)) == old.entry(path1(old, r4, q), p1_of(q)),
    ensures
        walk(new, r4, q) == walk(old, r4, q),
{
    lemma_path(old, r4, q);
}

/// Every page number below `2^35` (the lower canonical half) that the walk
/// from frame `p4` mapped to itself is still mapped to itself.
pub open spec fn identity_kept(old: PhysicalMemory, new: PhysicalMemory, p4: nat) -> bool {
    forall|q: nat| q < 0x8_0000_0000 && #[trigger] walk(old, p4, q) == Some(q) ==> walk(new, p4, q) == Some(q)
}

/// Two page numbers of the lower half with the same four indices are equal.
pub proof fn lemma_same_indices(a: nat, b: nat)
    requires
        a < 0x8_0000_0000,
        b < 0x8_0000_0000,
        same_indices(a, b),
    ensures
        a == b,
{
    let x = a as u64;
    let y = b as u64;
    assert(x == y) by (bit_vector)
        requires
            x < 0x8_0000_0000u64,
            y < 0x8_0000_0000u64,
            (x / 0x800_0000u64) % 512 == (y / 0x800_0000u64) % 512,
            (x / 0x4_0000u64) % 512 == (y / 0x4_0000u64) % 512,
            (x / 0x200u64) % 512 == (y / 0x200u64) % 512,
            x % 512 == y % 512,
    ;
}

/// Every complete walk is kept when every present entry of a table in use,
/// but the recursive slots, is kept.
proof fn lemma_walks_kept_if_entries_kept(old: PhysicalMemory, new: PhysicalMemory)
    requires
        old.wf(),
        new.frames() == old.frames(),
        forall|u: nat, j: nat|
            u < old.frames() && j < 512 && (old.use_of(u) is Table) && is_present(old.entry(u, j))
                && !(old.use_of(u) == FrameUse::Table(TableLevel::Level4) && j == 511)
                ==> #[trigger] new.entry(u, j) == old.entry(u, j),
    ensures
        walks_kept(old, new),
{
    assert forall|r4: nat, q: nat|
        r4 < old.frames() && old.use_of(r4) == FrameUse::Table(TableLevel::Level4) && p4_of(q) != 511
            && (#[trigger] walk(old, r4, q)) is Some implies walk(new, r4, q) == walk(old, r4, q) by {
        lemma_path(old, r4, q);
        lemma_walk_same(old, new, r4, q);
    }
}

/// No new walk is complete when every present entry of a table in use
/// afterwards, but the recursive slots, was there before.
proof fn lemma_no_new_walks_if_entries_kept(old: PhysicalMemory, new: PhysicalMemory)
    requires
        new.wf(),
        new.frames() == old.frames(),
        forall|u: nat|
            u < old.frames() && (old.use_of(u) is Table) ==> #[trigger] new.use_of(u) == old.use_of(u),
        forall|u: nat, j: nat|
            u < new.frames() && j < 512 && (new.use_of(u) is Table) && is_present(new.entry(u, j))
                && !(new.use_of(u) == FrameUse::Table(TableLevel::Level4) && j == 511)
                ==> #[trigger] old.entry(u, j) == new.entry(u, j),
    ensures
        no_new_walks(old, new),
{
    assert forall|r4: nat, q: nat|
        r4 < old.frames() && old.use_of(r4) == FrameUse::Table(TableLevel::Level4) && p4_of(q) != 511
            && (#[trigger] walk(new, r4, q)) is Some implies walk(old, r4, q) is Some by {
        lemma_path(new, r4, q);
        lemma_walk_same(new, old, r4, q);
    }
}

/// The arena keeps its size and every table in use keeps its level.
pub open spec fn uses_kept(old: PhysicalMemory, new: PhysicalMemory) -> bool {
    &&& new.frames() == old.frames()
    &&& forall|u: nat|
        u < old.frames() && (old.use_of(u) is Table) ==> #[trigger] new.use_of(u) == old.use_of(u)
}

/// The tables in use keep their use, and their entries but entry `i` of
/// frame `t`.
pub open spec fn tables_kept_but(old: PhysicalMemory, new: PhysicalMemory, t: nat, i: nat) -> bool {
    &&& new.frames() == old.frames()
    &&& forall|u: nat|
        u < old.frames() && (old.use_of(u) is Table) ==> #[trigger] new.use_of(u) == old.use_of(u)
    &&& forall|u: nat, j: nat|
        u < old.frames() && j < 512 && (old.use_of(u) is Table) && !(u == t && j == i)
            ==> #[trigger] new.entry(u, j) == old.entry(u, j)
}

/// The level-4 tables but frame `p4` keep all their entries, and the tables
/// in use keep their use.
pub open spec fn level4_kept_but(old: PhysicalMemory, new: PhysicalMemory, p4: nat) -> bool {
    &&& new.frames() == old.frames()
    &&& forall|u: nat|
        u < old.frames() && (old.use_of(u) is Table) ==> #[trigger] new.use_of(u) == old.use_of(u)
    &&& forall|u: nat, j: nat|
        u < old.frames() && j < 512 && old.use_of(u) == FrameUse::Table(TableLevel::Level4) && u
            != p4 ==> #[trigger] new.entry(u, j) == old.entry(u, j)
}

/// Maps pages to frames through the recursive mapping: its level-4 table
/// is the one that slot 511 of the table in the root register points at.
pub struct Mapper {
    memory: PhysicalMemory,
    root: Frame,
}

impl Mapper {
    /// The physical memory that holds the tables.
    pub closed spec fn mem(&self) -> PhysicalMemory {
        self.memory
    }

    /// The frame loaded in the root-table register.
    pub closed spec fn root(&self) -> nat {
        self.root@
    }

    /// The level-4 table that the mapper works on: the target of the root
    /// table's recursive slot.
    pub open spec fn p4(&self) -> nat {
        entry_frame(self.mem().entry(self.root(), 511))
    }

    /// The root register holds a level-4 table whose slot 511 is present.
    pub open spec fn wf(&self) -> bool {
        &&& self.mem().wf()
        &&& self.root() < self.mem().frames()
        &&& self.mem().use_of(self.root()) == FrameUse::Table(TableLevel::Level4)
        &&& is_present(self.mem().entry(self.root(), 511))
    }

    /// The physical address that `address` translates to.
    pub open spec fn translate_spec(&self, address: nat) -> Option<nat> {
        translate_from(self.mem(), self.p4(), address)
    }

    /// A mapper over `memory` with `root` loaded in the root register.
    pub fn new(memory: PhysicalMemory, root: Frame) -> (r: Mapper)
        ensures
            r.mem() == memory,
            r.root() == root@,
    {
        Mapper { memory, root }
    }

    /// The physical memory that holds the tables.
    pub fn memory(&self) -> (r: &PhysicalMemory)
        ensures
            *r == self.mem(),
    {
        &self.memory
    }

    /// The frame loaded in the root-table register.
    pub fn root_frame(&self) -> (r: Frame)
        ensures
            r@ == self.root(),
    {
        self.root.clone()
    }

    /// The table that the mapper works on is a level-4 table of the arena.
    pub proof fn lemma_p4(&self)
        requires
            self.wf(),
        ensures
            self.p4() < self.mem().frames(),
            self.mem().use_of(self.p4()) == FrameUse::Table(TableLevel::Level4),
    {
        assert(self.mem().link_ok(self.root(), 511, self.mem().entry(self.root(), 511)));
    }

    /// The level-4 table that the mapper works on.
    pub fn p4_frame(&self) -> (r: usize)
        requires
            self.wf(),
        ensures
            r == self.p4(),
            r < self.mem().frames(),
            self.mem().use_of(r as nat) == FrameUse::Table(TableLevel::Level4),
    {
        proof {
            self.lemma_p4();
        }
        let count = self.memory.frame_count();
        let e = self.memory.read(self.root.number(), 511);
        let n = (e & crate::entry::ADDRESS_MASK) >> 12u64;
        assert(n < count);
        n as usize
    }

    /// The frame that walking `page` reaches.
    pub fn translate_page(&self, page: Page) -> (r: Option<Frame>)
        requires
            self.wf(),
        ensures
            r is Some ==> walk(self.mem(), self.p4(), page@) == Some(r->0@),
            walk(self.mem(), self.p4(), page@) matches Some(f) && f <= usize::MAX ==> r is Some,
    {
        let p4 = self.p4_frame();
        let p3 = match next_table(&self.memory, p4, page.p4_index()) {
            Some(t) => t,
            None => return None,
        };
        let p2 = match next_table(&self.memory, p3, page.p3_index()) {
            Some(t) => t,
            None => return None,
        };
        let p1 = match next_table(&self.memory, p2, page.p2_index()) {
            Some(t) => t,
            None => return None,
        };
        pointed_frame(self.memory.read(p1, page.p1_index()))
    }

    /// The physical address that the canonical `address` translates to.
    pub fn translate(&self, address: usize) -> (r: Option<usize>)
        requires
            self.wf(),
            canonical(address as int),
        ensures
            r matches Some(a) ==> self.translate_spec(address as nat) == Some(a as nat),
            r is None ==> self.translate_spec(address as nat) is None,
    {
        let offset = address % PAGE_SIZE;
        let page = Page::containing_address(address);
        match self.translate_page(page) {
            Some(frame) => {
                let n = frame.number();
                if n <= (usize::MAX - offset) / PAGE_SIZE {
                    assert(n * 4096 + offset <= usize::MAX) by (nonlinear_arith)
                        requires n <= (usize::MAX - offset) / 4096, offset < 4096;
                    Some(n * PAGE_SIZE + offset)
                } else {
                    assert(n * 4096 + offset > usize::MAX) by (nonlinear_arith)
                        requires n > (usize::MAX - offset) / 4096, offset < 4096;
                    None
                }
            },
            None => None,
        }
    }
}

impl Mapper {
    /// Zeroes the free frame `table` and takes it as a table of `level`.
    pub fn claim_table(&mut self, table: &Frame, level: TableLevel)
        requires
            old(self).wf(),
            table@ < old(self).mem().frames(),
            old(self).mem().use_of(table@) == FrameUse::Free,
        ensures
            final(self).wf(),
            final(self).root() == old(self).root(),
            final(self).p4() == old(self).p4(),
            final(self).mem().use_of(table@) == FrameUse::Table(level),
            forall|j: nat| j < 512 ==> #[trigger] final(self).mem().entry(table@, j) == 0,
            tables_kept_but(old(self).mem(), final(self).mem(), table@, 0),
            walks_kept(old(self).mem(), final(self).mem()),
            no_new_walks(old(self).mem(), final(self).mem()),
    {
        let ghost m0 = self.memory;
        self.memory.claim_table(table.number(), level);
        proof {
            let m1 = self.memory;
            lemma_walks_kept_if_entries_kept(m0, m1);
            assert(!is_present(0u64)) by (bit_vector);
            lemma_no_new_walks_if_entries_kept(m0, m1);
        }
    }

    /// Points slot 511 of the level-4 table in frame `table` at the level-4
    /// table in frame `target`, present and writable.
    pub fn set_recursive_slot(&mut self, table: &Frame, target: &Frame)
        requires
            old(self).wf(),
            table@ < old(self).mem().frames(),
            target@ < old(self).mem().frames(),
            target@ < FRAME_LIMIT,
            old(self).mem().use_of(table@) == FrameUse::Table(TableLevel::Level4),
            old(self).mem().use_of(target@) == FrameUse::Table(TableLevel::Level4),
        ensures
            final(self).wf(),
            final(self).root() == old(self).root(),
            final(self).mem().entry(table@, 511) == make_entry(target@, PRESENT | WRITABLE),
            entry_frame(final(self).mem().entry(table@, 511)) == target@,
            is_present(final(self).mem().entry(table@, 511)),
            tables_kept_but(old(self).mem(), final(self).mem(), table@, 511),
            walks_kept(old(self).mem(), final(self).mem()),
            no_new_walks(old(self).mem(), final(self).mem()),
    {
        let ghost m0 = self.memory;
        assert((1u64 | 2u64) & 0x000f_ffff_ffff_f000u64 == 0) by (bit_vector);
        assert((1u64 | 2u64) & 1u64 == 1u64) by (bit_vector);
        let e = new_entry(target, PRESENT | WRITABLE);
        self.memory.write(table.number(), 511, e);
        proof {
            let m1 = self.memory;
            lemma_walks_kept_if_entries_kept(m0, m1);
            assert(!is_present(0u64)) by (bit_vector);
            lemma_no_new_walks_if_entries_kept(m0, m1);
        }
    }

    /// Maps `page` to `frame` with `flags`, creating the missing tables
    /// with frames from `allocator`.
    pub fn map_to<A: FrameAllocator>(
        &mut self,
        page: Page,
        frame: Frame,
        flags: u64,
        allocator: &mut A,
    ) -> (r: Result<(), MapError>)
        requires
            old(self).wf(),
            p4_of(page@) != 511,
            frame@ < FRAME_LIMIT,
            flags_only(flags),
        ensures
            final(self).wf(),
            final(self).root() == old(self).root(),
            final(self).p4() == old(self).p4(),
            level4_kept_but(old(self).mem(), final(self).mem(), old(self).p4()),
            final(self).mem().entry(old(self).root(), 511) == old(self).mem().entry(old(self).root(), 511),
            final(self).mem().entry(old(self).p4(), 511) == old(self).mem().entry(old(self).p4(), 511),
            r is Ok ==> walk(final(self).mem(), final(self).p4(), page@) == Some(frame@),
            r is Ok ==> leaf_entry(final(self).mem(), final(self).p4(), page@) == make_entry(
                frame@,
                flags | PRESENT,
            ),
            walks_kept_but(old(self).mem(), final(self).mem(), old(self).p4(), page@),
            no_new_walks_but(old(self).mem(), final(self).mem(), old(self).p4(), page@),
            tables_present(old(self).mem(), old(self).p4(), page@) ==> r is Ok && forall|u: nat|
                u < old(self).mem().frames() ==> #[trigger] final(self).mem().use_of(u) == old(
                    self,
                ).mem().use_of(u),
    {
        let ghost m0 = self.memory;
        let p4 = self.p4_frame();
        let root = self.root.number();
        let i4 = page.p4_index();
        let i3 = page.p3_index();
        let i2 = page.p2_index();
        let i1 = page.p1_index();
        let p3 = match next_table_create(&mut self.memory, p4, i4, TableLevel::Level3, allocator) {
            Ok(t) => t,
            Err(e) => return Err(e),
        };
        let ghost m1 = self.memory;
        let p2 = match next_table_create(&mut self.memory, p3, i3, TableLevel::Level2, allocator) {
            Ok(t) => t,
            Err(e) => {
                proof {
                    assert(m0.link_ok(p4 as nat, i4 as nat, m0.entry(p4 as nat, i4 as nat)));
                }
                return Err(e);
            },
        };
        let ghost m2 = self.memory;
        let p1 = match next_table_create(&mut self.memory, p2, i2, TableLevel::Level1, allocator) {
            Ok(t) => t,
            Err(e) => {
                proof {
                    assert(m0.link_ok(p4 as nat, i4 as nat, m0.entry(p4 as nat, i4 as nat)));
                    assert(m1.link_ok(p3 as nat, i3 as nat, m1.entry(p3 as nat, i3 as nat)));
                }
                return Err(e);
            },
        };
        let ghost m3 = self.memory;
        assert((flags | 1u64) & 0x000f_ffff_ffff_f000u64 == 0u64 && (flags | 1u64) & 1u64 == 1u64)
            by (bit_vector)
            requires flags & 0x000f_ffff_ffff_f000u64 == 0u64;
        let e = new_entry(&frame, flags | PRESENT);
        self.memory.write(p1, i1, e);
        proof {
            assert(self.memory.entry(root as nat, 511) == m0.entry(root as nat, 511));
            assert(self.memory.entry(p4 as nat, 511) == m0.entry(p4 as nat, 511));
            assert(self.memory.entry(p4 as nat, i4 as nat) == m1.entry(p4 as nat, i4 as nat));
            assert(self.memory.entry(p3 as nat, i3 as nat) == m2.entry(p3 as nat, i3 as nat));
            assert(self.memory.entry(p2 as nat, i2 as nat) == m3.entry(p2 as nat, i2 as nat));
            let m4 = self.memory;
            let n = page@;
            assert(m3.is_link(p4 as nat, i4 as nat));
            assert(m3.is_link(p3 as nat, i3 as nat));
            assert(m3.is_link(p2 as nat, i2 as nat));
            assert forall|r4: nat, q: nat|
                r4 < m0.frames() && m0.use_of(r4) == FrameUse::Table(TableLevel::Level4) && p4_of(q)
                    != 511 && (#[trigger] walk(m0, r4, q)) is Some && !(r4 == p4 && same_indices(q, n))
                implies walk(m4, r4, q) == walk(m0, r4, q) by {
                assert(walk(m1, r4, q) == walk(m0, r4, q));
                assert(walk(m2, r4, q) == walk(m1, r4, q));
                assert(walk(m3, r4, q) == walk(m2, r4, q));
                lemma_path(m3, r4, q);
                let q3 = path3(m3, r4, q);
                let q2 = path2(m3, r4, q);
                let q1 = path1(m3, r4, q);
                if q1 == p1 && p1_of(q) == i1 {
                    assert(m3.is_link(q2, p2_of(q)));
                    assert(q2 == p2 && p2_of(q) == i2);
                    assert(m3.is_link(q3, p3_of(q)));
                    assert(q3 == p3 && p3_of(q) == i3);
                    assert(m3.is_link(r4, p4_of(q)));
                    assert(r4 == p4 && p4_of(q) == i4);
                    assert(false);
                }
                lemma_walk_same(m3, m4, r4, q);
            }
            assert forall|r4: nat, q: nat|
                r4 < m0.frames() && m0.use_of(r4) == FrameUse::Table(TableLevel::Level4) && p4_of(q)
                    != 511 && (#[trigger] walk(m4, r4, q)) is Some && !(r4 == p4 && same_indices(q, n))
                implies walk(m0, r4, q) is Some by {
                lemma_path(m4, r4, q);
                let q3 = path3(m4, r4, q);
                let q2 = path2(m4, r4, q);
                let q1 = path1(m4, r4, q);
                if q1 == p1 && p1_of(q) == i1 {
                    assert(m4.is_link(p2 as nat, i2 as nat));
                    assert(m4.is_link(q2, p2_of(q)));
                    assert(q2 == p2 && p2_of(q) == i2);
                    assert(m4.is_link(p3 as nat, i3 as nat));
                    assert(m4.is_link(q3, p3_of(q)));
                    assert(q3 == p3 && p3_of(q) == i3);
                    assert(m4.is_link(p4 as nat, i4 as nat));
                    assert(m4.is_link(r4, p4_of(q)));
                    assert(false);
                }
                lemma_walk_same(m4, m3, r4, q);
                assert(walk(m2, r4, q) is Some);
                assert(walk(m1, r4, q) is Some);
            }
        }
        Ok(())
    }

    /// Maps `page` to a frame taken from `allocator`.
    pub fn map<A: FrameAllocator>(&mut self, page: Page, flags: u64, allocator: &mut A) -> (r: Result<
        (),
        MapError,
    >)
        requires
            old(self).wf(),
            p4_of(page@) != 511,
            flags_only(flags),
        ensures
            final(self).wf(),
            final(self).root() == old(self).root(),
            final(self).p4() == old(self).p4(),
            level4_kept_but(old(self).mem(), final(self).mem(), old(self).p4()),
            r is Ok ==> walk(final(self).mem(), final(self).p4(), page@) is Some,
            walks_kept_but(old(self).mem(), final(self).mem(), old(self).p4(), page@),
            no_new_walks_but(old(self).mem(), final(self).mem(), old(self).p4(), page@),
    {
        match frame_for_page(allocator.allocate_frame()) {
            Err(e) => Err(e),
            Ok(frame) => self.map_to(page, frame, flags, allocator),
        }
    }

    /// Maps the page whose address equals the start address of `frame` to
    /// `frame`.
    pub fn identity_map<A: FrameAllocator>(&mut self, frame: Frame, flags: u64, allocator: &mut A) -> (r:
        Result<(), MapError>)
        requires
            old(self).wf(),
            frame@ * 4096 <= usize::MAX,
            canonical((frame@ * 4096) as int),
            p4_of(frame@) != 511,
            frame@ < FRAME_LIMIT,
            flags_only(flags),
        ensures
            final(self).wf(),
            final(self).root() == old(self).root(),
            final(self).p4() == old(self).p4(),
            level4_kept_but(old(self).mem(), final(self).mem(), old(self).p4()),
            final(self).mem().entry(old(self).root(), 511) == old(self).mem().entry(old(self).root(), 511),
            final(self).mem().entry(old(self).p4(), 511) == old(self).mem().entry(old(self).p4(), 511),
            r is Ok ==> final(self).translate_spec(frame@ * 4096) == Some(frame@ * 4096),
            r is Ok ==> walk(final(self).mem(), final(self).p4(), frame@) == Some(frame@),
            r is Ok ==> leaf_entry(final(self).mem(), final(self).p4(), frame@) == make_entry(
                frame@,
                flags | PRESENT,
            ),
            identity_kept(old(self).mem(), final(self).mem(), old(self).p4()),
            walks_kept_but(old(self).mem(), final(self).mem(), old(self).p4(), frame@),
            no_new_walks_but(old(self).mem(), final(self).mem(), old(self).p4(), frame@),
            tables_present(old(self).mem(), old(self).p4(), frame@) ==> r is Ok,
    {
        let address = frame.start_address();
        let page = Page::containing_address(address);
        let ghost f = frame@;
        proof {
            let a = address as nat;
            assert(a / 4096 == frame@ && a % 4096 == 0) by (nonlinear_arith)
                requires a == frame@ * 4096;
            assert(f < 0x8_0000_0000) by (nonlinear_arith)
                requires f * 4096 < 0x0000_8000_0000_0000;
        }
        let ghost m0 = self.memory;
        let ghost p4 = self.p4();
        proof {
            self.lemma_p4();
        }
        let r = self.map_to(page, frame, flags, allocator);
        proof {
            assert forall|q: nat| q < 0x8_0000_0000 && #[trigger] walk(m0, p4, q) == Some(q) implies walk(
                self.memory,
                p4,
                q,
            ) == Some(q) by {
                assert(p4_of(q) != 511) by (nonlinear_arith)
                    requires q < 0x8_0000_0000, p4_of(q) == (q / 0x800_0000) % 512;
                if same_indices(q, f) {
                    lemma_same_indices(q, f);
                    assert(tables_present(m0, p4, f));
                }
            }
        }
        r
    }

    /// Removes the mapping of `page`; whether there was one.
    pub fn unmap(&mut self, page: Page) -> (r: bool)
        requires
            old(self).wf(),
            p4_of(page@) != 511,
        ensures
            final(self).wf(),
            final(self).root() == old(self).root(),
            final(self).p4() == old(self).p4(),
            level4_kept_but(old(self).mem(), final(self).mem(), old(self).p4()),
            final(self).mem().entry(old(self).root(), 511) == old(self).mem().entry(old(self).root(), 511),
            final(self).mem().entry(old(self).p4(), 511) == old(self).mem().entry(old(self).p4(), 511),
            walk(final(self).mem(), final(self).p4(), page@) is None,
            r == walk(old(self).mem(), old(self).p4(), page@) is Some,
            walks_kept_but(old(self).mem(), final(self).mem(), old(self).p4(), page@),
            no_new_walks(old(self).mem(), final(self).mem()),
    {
        let ghost m0 = self.memory;
        let p4 = self.p4_frame();
        let i4 = page.p4_index();
        let i3 = page.p3_index();
        let i2 = page.p2_index();
        let i1 = page.p1_index();
        proof {
            assert(m0.link_ok(p4 as nat, i4 as nat, m0.entry(p4 as nat, i4 as nat)));
        }
        let p3 = match next_table(&self.memory, p4, i4) {
            Some(t) => t,
            None => return false,
        };
        proof {
            assert(m0.link_ok(p3 as nat, i3 as nat, m0.entry(p3 as nat, i3 as nat)));
        }
        let p2 = match next_table(&self.memory, p3, i3) {
            Some(t) => t,
            None => return false,
        };
        proof {
            assert(m0.link_ok(p2 as nat, i2 as nat, m0.entry(p2 as nat, i2 as nat)));
        }
        let p1 = match next_table(&self.memory, p2, i2) {
            Some(t) => t,
            None => return false,
        };
        let was = crate::entry::present(self.memory.read(p1, i1));
        assert(!is_present(0u64)) by (bit_vector);
        self.memory.write(p1, i1, 0);
        proof {
            let root = self.root();
            assert(self.memory.entry(root, 511) == m0.entry(root, 511));
            let m1 = self.memory;
            let n = page@;
            assert(m0.is_link(p4 as nat, i4 as nat));
            assert(m0.is_link(p3 as nat, i3 as nat));
            assert(m0.is_link(p2 as nat, i2 as nat));
            assert forall|r4: nat, q: nat|
                r4 < m0.frames() && m0.use_of(r4) == FrameUse::Table(TableLevel::Level4) && p4_of(q)
                    != 511 && (#[trigger] walk(m0, r4, q)) is Some && !(r4 == p4 && same_indices(q, n))
                implies walk(m1, r4, q) == walk(m0, r4, q) by {
                lemma_path(m0, r4, q);
                let q3 = path3(m0, r4, q);
                let q2 = path2(m0, r4, q);
                let q1 = path1(m0, r4, q);
                if q1 == p1 && p1_of(q) == i1 {
                    assert(m0.is_link(q2, p2_of(q)));
                    assert(q2 == p2 && p2_of(q) == i2);
                    assert(m0.is_link(q3, p3_of(q)));
                    assert(q3 == p3 && p3_of(q) == i3);
                    assert(m0.is_link(r4, p4_of(q)));
                    assert(false);
                }
                lemma_walk_same(m0, m1, r4, q);
            }
            lemma_no_new_walks_if_entries_kept(m0, m1);
        }
        was
    }
}

/// What a frame handed out by an allocator gives for a new table: the frame
/// itself when it is a free frame of the arena that fits an entry;
/// `OutOfFrames` when there was none; `FrameUnavailable` otherwise.
pub fn frame_for_table(mem: &PhysicalMemory, candidate: Option<Frame>) -> (r: Result<Frame, MapError>)
    ensures
        candidate is None ==> r == Err::<Frame, MapError>(MapError::OutOfFrames),
        candidate matches Some(f) ==> if f@ < mem.frames() && f@ < FRAME_LIMIT && mem.use_of(f@)
            == FrameUse::Free {
            r == Ok::<Frame, MapError>(f)
        } else {
            r == Err::<Frame, MapError>(MapError::FrameUnavailable)
        },
{
    match candidate {
        None => Err(MapError::OutOfFrames),
        Some(frame) => {
            let c = frame.number();
            if c < mem.frame_count() && (c as u64) < FRAME_LIMIT && matches!(
                mem.frame_use(c),
                FrameUse::Free
            ) {
                Ok(frame)
            } else {
                Err(MapError::FrameUnavailable)
            }
        },
    }
}

/// What a frame handed out by an allocator gives as the target of a page:
/// the frame itself when it fits an entry; `OutOfFrames` when there was
/// none; `FrameUnavailable` otherwise.
pub fn frame_for_page(candidate: Option<Frame>) -> (r: Result<Frame, MapError>)
    ensures
        candidate is None ==> r == Err::<Frame, MapError>(MapError::OutOfFrames),
        candidate matches Some(f) ==> if f@ < FRAME_LIMIT {
            r == Ok::<Frame, MapError>(f)
        } else {
            r == Err::<Frame, MapError>(MapError::FrameUnavailable)
        },
{
    match candidate {
        None => Err(MapError::OutOfFrames),
        Some(frame) => {
            if (frame.number() as u64) < FRAME_LIMIT {
                Ok(frame)
            } else {
                Err(MapError::FrameUnavailable)
            }
        },
    }
}

/// The table that entry `i` of table `t` points at, if present and inside
/// the arena.
fn next_table(mem: &PhysicalMemory, t: usize, i: usize) -> (r: Option<usize>)
    requires
        mem.wf(),
        t < mem.frames(),
        i < 512,
    ensures
        r is Some <==> is_present(mem.entry(t as nat, i as nat)) && entry_frame(
            mem.entry(t as nat, i as nat),
        ) < mem.frames(),
        r matches Some(c) ==> c == entry_frame(mem.entry(t as nat, i as nat)),
{
    match pointed_frame(mem.read(t, i)) {
        Some(f) => {
            let c = f.number();
            if c < mem.frame_count() {
                Some(c)
            } else {
                None
            }
        },
        None => {
            let count = mem.frame_count();
            proof {
                let e = mem.entry(t as nat, i as nat);
                if is_present(e) {
                    assert(entry_frame(e) > usize::MAX && count == mem.frames());
                }
            }
            None
        },
    }
}

/// The table that entry `i` of table `t` points at; when the entry is
/// absent, a frame from `allocator` is zeroed, taken as a table of `level`
/// and installed there, present and writable.
fn next_table_create<A: FrameAllocator>(
    mem: &mut PhysicalMemory,
    t: usize,
    i: usize,
    level: TableLevel,
    allocator: &mut A,
) -> (r: Result<usize, MapError>)
    requires
        old(mem).wf(),
        t < old(mem).frames(),
        i < 512,
        old(mem).use_of(t as nat) is Table,
        old(mem).use_of(t as nat)->Table_0 != TableLevel::Level1,
        crate::memory::child_level(old(mem).use_of(t as nat)->Table_0, i as nat) == level,
    ensures
        final(mem).wf(),
        tables_kept_but(*old(mem), *final(mem), t as nat, i as nat),
        walks_kept(*old(mem), *final(mem)),
        no_new_walks(*old(mem), *final(mem)),
        is_present(old(mem).entry(t as nat, i as nat)) ==> *final(mem) == *old(mem) && r == Ok::<
            usize,
            MapError,
        >(entry_frame(old(mem).entry(t as nat, i as nat)) as usize),
        r is Err ==> !is_present(old(mem).entry(t as nat, i as nat)) && *final(mem) == *old(mem),
        r matches Ok(c) ==> {
            &&& is_present(final(mem).entry(t as nat, i as nat))
            &&& entry_frame(final(mem).entry(t as nat, i as nat)) == c
            &&& c < final(mem).frames()
            &&& final(mem).use_of(c as nat) == FrameUse::Table(level)
        },
{
    let ghost m0 = *mem;
    let count = mem.frame_count();
    proof {
        assert(mem.link_ok(t as nat, i as nat, mem.entry(t as nat, i as nat)));
    }
    match next_table(mem, t, i) {
        Some(c) => return Ok(c),
        None => {},
    }
    match frame_for_table(mem, allocator.allocate_frame()) {
        Err(e) => Err(e),
        Ok(frame) => {
            let c = frame.number();
            mem.claim_table(c, level);
            assert((1u64 | 2u64) & 0x000f_ffff_ffff_f000u64 == 0) by (bit_vector);
            assert((1u64 | 2u64) & 1u64 == 1u64) by (bit_vector);
            let e = new_entry(&frame, PRESENT | WRITABLE);
            let ghost m1 = *mem;
            mem.write(t, i, e);
            proof {
                let m2 = *mem;
                lemma_walks_kept_if_entries_kept(m0, m2);
                assert(!is_present(0u64)) by (bit_vector);
                assert forall|r4: nat, q: nat|
                    r4 < m0.frames() && m0.use_of(r4) == FrameUse::Table(TableLevel::Level4)
                        && p4_of(q) != 511 && (#[trigger] walk(m2, r4, q)) is Some implies walk(
                    m0,
                    r4,
                    q,
                ) is Some by {
                    lemma_path(m2, r4, q);
                    let q3 = path3(m2, r4, q);
                    let q2 = path2(m2, r4, q);
                    let q1 = path1(m2, r4, q);
                    assert(m2.entry(c as nat, p4_of(q)) == 0);
                    assert(m2.entry(c as nat, p3_of(q)) == 0);
                    assert(m2.entry(c as nat, p2_of(q)) == 0);
                    assert(m2.entry(c as nat, p1_of(q)) == 0);
                    assert(r4 != c && q3 != c && q2 != c && q1 != c);
                    assert(!(r4 == t && p4_of(q) == i));
                    assert(!(q3 == t && p3_of(q) == i));
                    assert(!(q2 == t && p2_of(q) == i));
                    assert(q1 != t);
                    assert(m0.use_of(q3) == m2.use_of(q3));
                    assert(m0.use_of(q2) == m2.use_of(q2));
                    assert(m0.use_of(q1) == m2.use_of(q1));
                    lemma_walk_same(m2, m0, r4, q);
                }
            }
            Ok(c)
        },
    }
}

} // verus!
