use vstd::prelude::*;

use crate::entry::WRITABLE;
use crate::frame::{Frame, FrameAllocator, PAGE_SIZE};
use crate::mapper::{
    identity_kept, lemma_walks_same_but, no_new_walks_but, others_same, same_indices, uses_kept, walk,
    MapError, Mapper,
};
use crate::page::p4_of;
use crate::memory::PhysicalMemory;

verus! {

/// A section of the kernel image as the boot loader reports it.
#[derive(Debug, Clone, Copy, PartialEq, Eq, Structural)]
pub struct ElfSection {
    /// First address of the section.
    pub addr: usize,
    /// Size of the section in bytes.
    pub size: usize,
    /// Whether the section is loaded into memory.
    pub allocated: bool,
}

/// A loaded section must start and end on a page boundary and lie in the lower
/// canonical half, where a virtual address can equal a physical one.
pub open spec fn section_ok(s: ElfSection) -> bool {
    s.allocated ==> s.addr % 4096 == 0 && (s.addr + s.size) % 4096 == 0 && s.addr + s.size <= 0x0000_8000_0000_0000 && s.addr + s.size
        <= usize::MAX
}

/// Page number `n` starts inside the loaded section `s`.
pub open spec fn in_section(s: ElfSection, n: nat) -> bool {
    s.allocated && s.addr <= n * 4096 < s.addr + s.size
}

/// The walk from frame `p4` maps every page of the first `upto` sections
/// that are loaded to itself.
pub open spec fn sections_mapped(mem: PhysicalMemory, p4: nat, sections: Seq<ElfSection>, upto: int) -> bool {
    forall|k: int, n: nat|
        0 <= k < upto && #[trigger] in_section(sections[k], n) ==> walk(mem, p4, n) == Some(n)
}

/// Identity-maps, writable, every page of one loaded section.
fn map_section<A: FrameAllocator>(mapper: &mut Mapper, section: ElfSection, allocator: &mut A) -> (r:
    Result<(), MapError>)
    requires
        old(mapper).wf(),
        section_ok(section),
        section.allocated,
    ensures
        final(mapper).wf(),
        final(mapper).root() == old(mapper).root(),
        final(mapper).p4() == old(mapper).p4(),
        uses_kept(old(mapper).mem(), final(mapper).mem()),
        final(mapper).mem().entry(old(mapper).p4(), 511) == old(mapper).mem().entry(old(mapper).p4(), 511),
        others_same(old(mapper).mem(), final(mapper).mem(), old(mapper).p4()),
        identity_kept(old(mapper).mem(), final(mapper).mem(), old(mapper).p4()),
        r is Ok ==> forall|n: nat| #[trigger]
            in_section(section, n) ==> walk(final(mapper).mem(), final(mapper).p4(), n) == Some(n),
        forall|q: nat|
            q < 0x8_0000_0000 && (#[trigger] walk(final(mapper).mem(), final(mapper).p4(), q)) is Some
                ==> walk(old(mapper).mem(), old(mapper).p4(), q) is Some || in_section(section, q),
{
    let end = section.addr + section.size;
    let mut address = section.addr;
    assert(2u64 & 0x000f_ffff_ffff_f000u64 == 0) by (bit_vector);
    while address < end
        invariant
            old(mapper).wf(),
            section.allocated,
            mapper.wf(),
            mapper.root() == old(mapper).root(),
            mapper.p4() == old(mapper).p4(),
            uses_kept(old(mapper).mem(), mapper.mem()),
            mapper.mem().entry(old(mapper).p4(), 511) == old(mapper).mem().entry(old(mapper).p4(), 511),
            others_same(old(mapper).mem(), mapper.mem(), old(mapper).p4()),
            identity_kept(old(mapper).mem(), mapper.mem(), old(mapper).p4()),
            forall|q: nat|
                q < 0x8_0000_0000 && (#[trigger] walk(mapper.mem(), mapper.p4(), q)) is Some ==> walk(
                    old(mapper).mem(),
                    old(mapper).p4(),
                    q,
                ) is Some || in_section(section, q),
            address % 4096 == 0,
            section.addr <= address <= end + 4096,
            end == section.addr + section.size,
            end <= 0x0000_8000_0000_0000,
            forall|n: nat| #[trigger]
                in_section(section, n) && n * 4096 < address ==> walk(mapper.mem(), mapper.p4(), n)
                    == Some(n),
        decreases end + 4096 - address,
    {
        let frame = Frame::containing_address(address);
        proof {
            assert(2u64 & 0x000f_ffff_ffff_f000u64 == 0) by (bit_vector);
            let a = address as nat;
            assert(frame@ * 4096 == a) by (nonlinear_arith)
                requires frame@ == a / 4096, a % 4096 == 0;
            assert(frame@ < 0x8_0000_0000) by (nonlinear_arith)
                requires frame@ == a / 4096, a < 0x0000_8000_0000_0000;
        }
        let ghost m0 = mapper.mem();
        let ghost a = address as nat;
        let mapped = mapper.identity_map(frame, WRITABLE, allocator);
        proof {
            lemma_walks_same_but(m0, mapper.mem(), old(mapper).p4(), frame@);
            old(mapper).lemma_p4();
            assert forall|q: nat|
                q < 0x8_0000_0000 && (#[trigger] walk(mapper.mem(), mapper.p4(), q)) is Some implies walk(
                old(mapper).mem(),
                old(mapper).p4(),
                q,
            ) is Some || in_section(section, q) by {
                assert(p4_of(q) != 511) by (nonlinear_arith)
                    requires q < 0x8_0000_0000, p4_of(q) == (q / 0x800_0000) % 512;
                if same_indices(q, frame@) {
                    assert(frame@ < 0x8_0000_0000) by (nonlinear_arith)
                        requires frame@ * 4096 == a, a < 0x0000_8000_0000_0000;
                    crate::mapper::lemma_same_indices(q, frame@);
                    assert(in_section(section, q));
                } else {
                    assert(walk(m0, old(mapper).p4(), q) is Some);
                }
            }
        }
        match mapped {
            Ok(()) => {},
            Err(e) => return Err(e),
        }
        proof {
            assert forall|n: nat| #[trigger]
                in_section(section, n) && n * 4096 < a + 4096 implies walk(mapper.mem(), mapper.p4(), n)
                == Some(n) by {
                if n * 4096 < a {
                    assert(n < 0x8_0000_0000) by (nonlinear_arith)
                        requires n * 4096 < 0x0000_8000_0000_0000;
                    assert(walk(m0, old(mapper).p4(), n) == Some(n));
                } else {
                    assert(n == frame@) by (nonlinear_arith)
                        requires n * 4096 >= a, n * 4096 < a + 4096, a % 4096 == 0, frame@ == a / 4096;
                }
            }
        }
        address = match address.checked_add(PAGE_SIZE) {
            Some(next) => next,
            None => {
                proof {
                    assert forall|n: nat| #[trigger] in_section(section, n) implies walk(
                        mapper.mem(),
                        mapper.p4(),
                        n,
                    ) == Some(n) by {
                        assert(n * 4096 < a + 4096);
                    }
                }
                return Ok(());
            },
        };
    }
    Ok(())
}

/// Identity-maps, writable, every page of every loaded section; stops at
/// the first mapping that fails.
pub fn map_sections<A: FrameAllocator>(
    mapper: &mut Mapper,
    sections: &Vec<ElfSection>,
    allocator: &mut A,
) -> (r: Result<(), MapError>)
    requires
        old(mapper).wf(),
        forall|k: int| 0 <= k < sections@.len() ==> section_ok(#[trigger] sections@[k]),
    ensures
        final(mapper).wf(),
        final(mapper).root() == old(mapper).root(),
        final(mapper).p4() == old(mapper).p4(),
        uses_kept(old(mapper).mem(), final(mapper).mem()),
        final(mapper).mem().entry(old(mapper).p4(), 511) == old(mapper).mem().entry(old(mapper).p4(), 511),
        others_same(old(mapper).mem(), final(mapper).mem(), old(mapper).p4()),
        r is Ok ==> sections_mapped(final(mapper).mem(), final(mapper).p4(), sections@, sections@.len() as int),
        (forall|k: int| 0 <= k < sections@.len() ==> !(#[trigger] sections@[k]).allocated) ==> r is Ok,
        forall|q: nat|
            q < 0x8_0000_0000 && (#[trigger] walk(final(mapper).mem(), final(mapper).p4(), q)) is Some
                ==> walk(old(mapper).mem(), old(mapper).p4(), q) is Some || exists|k: int|
                0 <= k < sections@.len() && #[trigger] in_section(sections@[k], q),
{
    let mut k: usize = 0;
    while k < sections.len()
        invariant
            mapper.wf(),
            mapper.root() == old(mapper).root(),
            mapper.p4() == old(mapper).p4(),
            uses_kept(old(mapper).mem(), mapper.mem()),
            mapper.mem().entry(old(mapper).p4(), 511) == old(mapper).mem().entry(old(mapper).p4(), 511),
            others_same(old(mapper).mem(), mapper.mem(), old(mapper).p4()),
            sections_mapped(mapper.mem(), mapper.p4(), sections@, k as int),
            forall|q: nat|
                q < 0x8_0000_0000 && (#[trigger] walk(mapper.mem(), mapper.p4(), q)) is Some ==> walk(
                    old(mapper).mem(),
                    old(mapper).p4(),
                    q,
                ) is Some || exists|j: int| 0 <= j < k && #[trigger] in_section(sections@[j], q),
            k <= sections@.len(),
            forall|j: int| 0 <= j < sections@.len() ==> section_ok(#[trigger] sections@[j]),
        decreases sections@.len() - k,
    {
        let section = sections[k];
        let ghost m0 = mapper.mem();
        if section.allocated {
            match map_section(mapper, section, allocator) {
                Ok(()) => {},
                Err(e) => return Err(e),
            }
        }
        proof {
            assert forall|j: int, n: nat|
                0 <= j < k + 1 && #[trigger] in_section(sections@[j], n) implies walk(
                mapper.mem(),
                mapper.p4(),
                n,
            ) == Some(n) by {
                if j < k {
                    let s = sections@[j];
                    assert(section_ok(s));
                    assert(n < 0x8_0000_0000) by (nonlinear_arith)
                        requires n * 4096 < s.addr + s.size, s.addr + s.size <= 0x0000_8000_0000_0000;
                    assert(walk(m0, old(mapper).p4(), n) == Some(n));
                }
            }
            assert forall|q: nat|
                q < 0x8_0000_0000 && (#[trigger] walk(mapper.mem(), mapper.p4(), q)) is Some implies walk(
                old(mapper).mem(),
                old(mapper).p4(),
                q,
            ) is Some || exists|j: int| 0 <= j < k + 1 && #[trigger] in_section(sections@[j], q) by {
                if section.allocated && in_section(section, q) {
                    assert(in_section(sections@[k as int], q));
                } else {
                    assert(walk(m0, old(mapper).p4(), q) is Some);
                }
            }
        }
        k = k + 1;
    }
    Ok(())
}

} // verus!
