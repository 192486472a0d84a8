use vstd::prelude::*;

use crate::entry::{entry_frame, is_present, FRAME_LIMIT};
use crate::page::ENTRY_COUNT;

verus! {

/// The level of a page table in the four-level hierarchy.
#[derive(Debug, Clone, Copy, PartialEq, Eq, Structural)]
pub enum TableLevel {
    Level4,
    Level3,
    Level2,
    Level1,
}

/// What a frame of the arena is used for.
#[derive(Debug, Clone, Copy, PartialEq, Eq, Structural)]
pub enum FrameUse {
    Free,
    Table(TableLevel),
}

/// Level of the table that entry `index` of a table at `level` points at.
/// Slot 511 of a level-4 table holds the recursive mapping, which points at
/// a level-4 table.
pub open spec fn child_level(level: TableLevel, index: nat) -> TableLevel {
    match level {
        TableLevel::Level4 => if index == 511 {
            TableLevel::Level4
        } else {
            TableLevel::Level3
        },
        TableLevel::Level3 => TableLevel::Level2,
        TableLevel::Level2 => TableLevel::Level1,
        TableLevel::Level1 => TableLevel::Level1,
    }
}

/// Whether frames of this use have entries that point at next-level tables.
pub open spec fn is_interior(u: FrameUse) -> bool {
    u is Table && u->Table_0 != TableLevel::Level1
}

/// Physical memory that can hold page tables: one table of 512 entries for
/// each frame number below `frames()`, each frame tagged with its use.
pub struct PhysicalMemory {
    tables: Vec<Vec<u64>>,
    uses: Vec<FrameUse>,
}

impl PhysicalMemory {
    /// Number of frames in the arena.
    pub closed spec fn frames(&self) -> nat {
        self.uses@.len()
    }

    /// Entry `i` of the table held in frame `t`.
    pub closed spec fn entry(&self, t: nat, i: nat) -> u64 {
        self.tables@[t as int]@[i as int]
    }

    /// What frame `t` is used for.
    pub closed spec fn use_of(&self, t: nat) -> FrameUse {
        self.uses@[t as int]
    }

    /// Every frame of the arena holds a table of 512 entries.
    pub closed spec fn shape_ok(&self) -> bool {
        &&& self.tables@.len() == self.uses@.len()
        &&& forall|t: int| 0 <= t < self.tables@.len() ==> (#[trigger] self.tables@[t])@.len() == 512
    }

    /// Writing `v` into entry `i` of frame `t` keeps every link of an
    /// interior table pointing at a table one level down.
    pub open spec fn link_ok(&self, t: nat, i: nat, v: u64) -> bool {
        is_interior(self.use_of(t)) && is_present(v) ==> {
            let c = entry_frame(v);
            &&& c < self.frames()
            &&& self.use_of(c) == FrameUse::Table(child_level(self.use_of(t)->Table_0, i))
        }
    }

    /// Every present entry of an interior table points at a table of the
    /// next level down, inside the arena.
    pub open spec fn links_ok(&self) -> bool {
        forall|t: nat, i: nat|
            t < self.frames() && i < 512 ==> #[trigger] self.link_ok(t, i, self.entry(t, i))
    }

    /// Entry `i` of frame `t` links an interior table to the table below
    /// it: present, and not the recursive slot of a level-4 table.
    pub open spec fn is_link(&self, t: nat, i: nat) -> bool {
        &&& t < self.frames()
        &&& i < 512
        &&& is_interior(self.use_of(t))
        &&& !(self.use_of(t) == FrameUse::Table(TableLevel::Level4) && i == 511)
        &&& is_present(self.entry(t, i))
    }

    /// No two links point at the same table: the tables below the level-4
    /// tables form trees.
    pub open spec fn links_unique(&self) -> bool {
        forall|t1: nat, i1: nat, t2: nat, i2: nat|
            #![trigger self.is_link(t1, i1), self.is_link(t2, i2)]
            self.is_link(t1, i1) && self.is_link(t2, i2) && entry_frame(self.entry(t1, i1))
                == entry_frame(self.entry(t2, i2)) ==> t1 == t2 && i1 == i2
    }

    /// Writing `v` into entry `i` of frame `t` makes no second link to a
    /// table that another link already points at.
    pub open spec fn link_fresh(&self, t: nat, i: nat, v: u64) -> bool {
        is_interior(self.use_of(t)) && !(self.use_of(t) == FrameUse::Table(TableLevel::Level4)
            && i == 511) && is_present(v) ==> forall|u: nat, j: nat|
            #[trigger] self.is_link(u, j) && !(u == t && j == i) ==> entry_frame(self.entry(u, j))
                != entry_frame(v)
    }

    /// Every entry of a table is present or all zero: no entry holds frame
    /// bits without being present.
    pub open spec fn entries_clean(&self) -> bool {
        forall|t: nat, i: nat|
            t < self.frames() && i < 512 && (self.use_of(t) is Table) ==> is_present(
                #[trigger] self.entry(t, i),
            ) || self.entry(t, i) == 0
    }

    /// The arena is well formed.
    pub open spec fn wf(&self) -> bool {
        &&& self.shape_ok()
        &&& self.frames() <= FRAME_LIMIT
        &&& self.links_ok()
        &&& self.links_unique()
        &&& self.entries_clean()
    }

    /// An arena of `frames` free frames, all zero.
    pub fn new(frames: usize) -> (r: PhysicalMemory)
        requires
            frames <= FRAME_LIMIT,
        ensures
            r.wf(),
            r.frames() == frames,
            forall|t: nat| t < frames ==> #[trigger] r.use_of(t) == FrameUse::Free,
            forall|t: nat, i: nat| t < frames && i < 512 ==> #[trigger] r.entry(t, i) == 0,
    {
        let mut tables: Vec<Vec<u64>> = Vec::new();
        let mut uses: Vec<FrameUse> = Vec::new();
        let mut k: usize = 0;
        while k < frames
            invariant
                k <= frames,
                tables@.len() == k,
                uses@.len() == k,
                forall|t: int| 0 <= t < k ==> (#[trigger] tables@[t])@.len() == 512,
                forall|t: int, i: int| 0 <= t < k && 0 <= i < 512 ==> #[trigger] tables@[t]@[i] == 0,
                forall|t: int| 0 <= t < k ==> #[trigger] uses@[t] == FrameUse::Free,
            decreases frames - k,
        {
            tables.push(zeroed_table());
            uses.push(FrameUse::Free);
            k = k + 1;
        }
        let r = PhysicalMemory { tables, uses };
        assert forall|t: nat, i: nat| t < r.frames() && i < 512 implies #[trigger] r.link_ok(
            t,
            i,
            r.entry(t, i),
        ) by {
            assert(r.use_of(t) == FrameUse::Free);
        }
        assert forall|t1: nat, i1: nat, t2: nat, i2: nat|
            r.is_link(t1, i1) && r.is_link(t2, i2) && entry_frame(r.entry(t1, i1))
                == entry_frame(r.entry(t2, i2)) implies t1 == t2 && i1 == i2 by {
            assert(r.use_of(t1) == FrameUse::Free);
        }
        r
    }

    /// Number of frames in the arena.
    pub fn frame_count(&self) -> (r: usize)
        ensures
            r == self.frames(),
    {
        self.uses.len()
    }

    /// What frame `t` is used for.
    pub fn frame_use(&self, t: usize) -> (r: FrameUse)
        requires
            t < self.frames(),
        ensures
            r == self.use_of(t as nat),
    {
        self.uses[t]
    }

    /// Entry `i` of the table held in frame `t`.
    pub fn read(&self, t: usize, i: usize) -> (r: u64)
        requires
            self.wf(),
            t < self.frames(),
            i < ENTRY_COUNT,
        ensures
            r == self.entry(t as nat, i as nat),
    {
        self.tables[t][i]
    }

    /// Writes `v` into entry `i` of frame `t`.
    pub fn write(&mut self, t: usize, i: usize, v: u64)
        requires
            old(self).wf(),
            t < old(self).frames(),
            i < ENTRY_COUNT,
            old(self).link_ok(t as nat, i as nat, v),
            old(self).link_fresh(t as nat, i as nat, v),
            is_present(v) || v == 0,
        ensures
            final(self).wf(),
            final(self).frames() == old(self).frames(),
            forall|u: nat| u < old(self).frames() ==> #[trigger] final(self).use_of(u) == old(self).use_of(u),
            final(self).entry(t as nat, i as nat) == v,
            forall|u: nat, j: nat|
                u < old(self).frames() && j < 512 && !(u == t && j == i) ==> #[trigger] final(self).entry(u, j)
                    == old(self).entry(u, j),
    {
        let mut row = self.tables[t].clone();
        assert(row@ =~= old(self).tables@[t as int]@);
        row.set(i, v);
        self.tables.set(t, row);
        assert forall|u: nat, j: nat| u < self.frames() && j < 512 implies #[trigger] self.link_ok(
            u,
            j,
            self.entry(u, j),
        ) by {
            if !(u == t && j == i) {
                assert(old(self).link_ok(u, j, old(self).entry(u, j)));
            }
        }
        assert forall|t1: nat, i1: nat, t2: nat, i2: nat|
            self.is_link(t1, i1) && self.is_link(t2, i2) && entry_frame(self.entry(t1, i1))
                == entry_frame(self.entry(t2, i2)) implies t1 == t2 && i1 == i2 by {
            if t1 == t && i1 == i {
                if !(t2 == t && i2 == i) {
                    assert(old(self).is_link(t2, i2));
                }
            } else if t2 == t && i2 == i {
                assert(old(self).is_link(t1, i1));
            } else {
                assert(old(self).is_link(t1, i1) && old(self).is_link(t2, i2));
            }
        }
        assert forall|u: nat, j: nat|
            u < self.frames() && j < 512 && (self.use_of(u) is Table) implies is_present(
            #[trigger] self.entry(u, j),
        ) || self.entry(u, j) == 0 by {
            if !(u == t && j == i) {
                assert(old(self).entry(u, j) == self.entry(u, j));
            }
        }
    }

    /// Zeroes frame `t`, which must be free, and takes it as a table of
    /// `level`.
    pub fn claim_table(&mut self, t: usize, level: TableLevel)
        requires
            old(self).wf(),
            t < old(self).frames(),
            old(self).use_of(t as nat) == FrameUse::Free,
        ensures
            final(self).wf(),
            final(self).frames() == old(self).frames(),
            final(self).use_of(t as nat) == FrameUse::Table(level),
            forall|u: nat| u < old(self).frames() && u != t ==> #[trigger] final(self).use_of(u) == old(self).use_of(u),
            forall|j: nat| j < 512 ==> #[trigger] final(self).entry(t as nat, j) == 0,
            forall|u: nat, j: nat|
                u < old(self).frames() && j < 512 && u != t ==> #[trigger] final(self).entry(u, j)
                    == old(self).entry(u, j),
            forall|u: nat, j: nat| #[trigger]
                final(self).is_link(u, j) ==> entry_frame(final(self).entry(u, j)) != t,
    {
        self.tables.set(t, zeroed_table());
        self.uses.set(t, FrameUse::Table(level));
        assert forall|u: nat, j: nat| u < self.frames() && j < 512 implies #[trigger] self.link_ok(
            u,
            j,
            self.entry(u, j),
        ) by {
            if u == t {
                assert(self.entry(u, j) == 0);
                assert(!is_present(0u64)) by (bit_vector);
            } else {
                assert(old(self).link_ok(u, j, old(self).entry(u, j)));
                if is_interior(old(self).use_of(u)) && is_present(old(self).entry(u, j)) {
                    assert(entry_frame(old(self).entry(u, j)) != t);
                }
            }
        }
        assert forall|u: nat, j: nat| #[trigger] self.is_link(u, j) implies entry_frame(
            self.entry(u, j),
        ) != t by {
            assert(!is_present(0u64)) by (bit_vector);
            assert(u != t);
            assert(old(self).is_link(u, j));
            assert(old(self).link_ok(u, j, old(self).entry(u, j)));
        }
        assert forall|t1: nat, i1: nat, t2: nat, i2: nat|
            self.is_link(t1, i1) && self.is_link(t2, i2) && entry_frame(self.entry(t1, i1))
                == entry_frame(self.entry(t2, i2)) implies t1 == t2 && i1 == i2 by {
            assert(!is_present(0u64)) by (bit_vector);
            assert(t1 != t && t2 != t);
            assert(old(self).is_link(t1, i1) && old(self).is_link(t2, i2));
        }
        assert forall|u: nat, j: nat|
            u < self.frames() && j < 512 && (self.use_of(u) is Table) implies is_present(
            #[trigger] self.entry(u, j),
        ) || self.entry(u, j) == 0 by {
            if u != t {
                assert(old(self).entry(u, j) == self.entry(u, j));
            }
        }
    }
}

/// A table of 512 zero entries.
fn zeroed_table() -> (r: Vec<u64>)
    ensures
        r@.len() == 512,
        forall|i: int| 0 <= i < 512 ==> #[trigger] r@[i] == 0,
{
    let mut v: Vec<u64> = Vec::new();
    let mut k: usize = 0;
    while k < ENTRY_COUNT
        invariant
            k <= ENTRY_COUNT,
            v@.len() == k,
            forall|i: int| 0 <= i < k ==> #[trigger] v@[i] == 0,
        decreases ENTRY_COUNT - k,
    {
        v.push(0);
        k = k + 1;
    }
    v
}

} // verus!
