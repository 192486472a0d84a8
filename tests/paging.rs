use kernel_paging::entry::{new_entry, pointed_frame, present, PRESENT, WRITABLE};
use kernel_paging::frame::{Frame, FrameAllocator, PAGE_SIZE};
use kernel_paging::mapper::{frame_for_page, frame_for_table, MapError, Mapper};
use kernel_paging::memory::{FrameUse, PhysicalMemory, TableLevel};
use kernel_paging::page::{is_canonical, Page};
use kernel_paging::paging::{remap_the_kernel, ActivePageTable, InactivePageTable};
use kernel_paging::remap::ElfSection;
use kernel_paging::temporary_page::{TemporaryPage, TinyAllocator};

/// Hands out the frames `next..end` in ascending order.
struct Bump {
    next: usize,
    end: usize,
}

impl FrameAllocator for Bump {
    fn allocate_frame(&mut self) -> Option<Frame> {
        if self.next < self.end {
            let f = Frame::from_number(self.next);
            self.next += 1;
            Some(f)
        } else {
            None
        }
    }

    fn deallocate_frame(&mut self, _frame: Frame) {}
}

/// Memory of `frames` frames whose frame 0 holds a level-4 table that maps
/// itself through slot 511.
fn boot_memory(frames: usize) -> PhysicalMemory {
    let mut m = PhysicalMemory::new(frames);
    m.claim_table(0, TableLevel::Level4);
    m.write(0, 511, new_entry(&Frame::from_number(0), PRESENT | WRITABLE));
    m
}

fn boot_table(frames: usize) -> ActivePageTable {
    ActivePageTable::new(boot_memory(frames), Frame::from_number(0))
}

fn temporary(alloc: &mut Bump) -> TemporaryPage {
    TemporaryPage::new(Page::from_number(0xcafe_babe), alloc)
}

fn translate_in(
    active: &mut ActivePageTable,
    table: &mut InactivePageTable,
    temp: &mut TemporaryPage,
    address: usize,
) -> Option<usize> {
    active
        .with(table, temp, |m: Mapper| {
            let r = m.translate(address);
            (m, r)
        })
        .unwrap()
}

/// Every entry of every table is present or zero.
fn entries_consistent(mem: &PhysicalMemory) -> bool {
    for t in 0..mem.frame_count() {
        if let FrameUse::Table(_) = mem.frame_use(t) {
            for i in 0..512 {
                let e = mem.read(t, i);
                if !present(e) && e != 0 {
                    return false;
                }
            }
        }
    }
    true
}

#[test]
fn frame_containing_address_holds_address() {
    for &a in &[0usize, 1, 4095, 4096, 4097, 0x100123, 0x7fff_ffff_ffff] {
        let f = Frame::containing_address(a);
        assert!(f.start_address() <= a);
        assert!(a < f.start_address() + PAGE_SIZE);
    }
    assert_eq!(Frame::containing_address(0x100123).number(), 0x100);
    assert_eq!(Frame::containing_address(0x100123).start_address(), 0x100000);
}

#[test]
fn frame_clone_keeps_number() {
    let f = Frame::containing_address(0x5000);
    assert_eq!(f.clone(), f);
    assert_eq!(f.clone().number(), 5);
}

#[test]
fn page_indices_survive_round_trip() {
    for &a in &[0x0000_1234_5678_9000usize, 0x0000_7fff_ffff_f000, 0xffff_8000_1234_5000, 0] {
        let p = Page::containing_address(a);
        let q = Page::containing_address(p.start_address());
        assert_eq!(p.p4_index(), q.p4_index());
        assert_eq!(p.p3_index(), q.p3_index());
        assert_eq!(p.p2_index(), q.p2_index());
        assert_eq!(p.p1_index(), q.p1_index());
    }
}

#[test]
fn page_indices_values() {
    let p = Page::containing_address(0xffff_ffff_ffff_f000);
    assert_eq!((p.p4_index(), p.p3_index(), p.p2_index(), p.p1_index()), (511, 511, 511, 511));
    let p = Page::containing_address(0x0000_0080_4020_1000);
    assert_eq!((p.p4_index(), p.p3_index(), p.p2_index(), p.p1_index()), (1, 1, 1, 1));
    let p = Page::from_number(0xcafe_babe);
    assert_eq!(p.p4_index(), 25);
    assert_eq!(p.p1_index(), 0xbe);
}

#[test]
fn canonical_gap_is_rejected() {
    assert!(!is_canonical(0x0000_8000_0000_0000));
    assert!(!is_canonical(0x1234_5678_9abc_def0));
    assert!(!is_canonical(0xffff_7fff_ffff_ffff));
    assert!(is_canonical(0x0000_7fff_ffff_ffff));
    assert!(is_canonical(0xffff_8000_0000_0000));
    assert!(is_canonical(0));
    assert!(is_canonical(usize::MAX));
}

#[test]
fn frames_and_pages_order_by_address() {
    let a = Frame::containing_address(0x1000);
    let b = Frame::containing_address(0x2fff);
    let c = Frame::containing_address(0x1fff);
    assert!(a < b);
    assert!(b > a);
    assert_eq!(a, c);
    assert!(a <= c && a >= c);
    let p = Page::containing_address(0x1000);
    let q = Page::containing_address(0xffff_8000_0000_0000);
    assert!(p < q);
    assert_eq!(p.partial_cmp(&p), Some(std::cmp::Ordering::Equal));
}

#[test]
fn entry_encoding() {
    let f = Frame::from_number(5);
    let e = new_entry(&f, PRESENT | WRITABLE);
    assert_eq!(e, 0x5003);
    assert!(present(e));
    assert_eq!(pointed_frame(e), Some(Frame::from_number(5)));
    let e = new_entry(&f, WRITABLE);
    assert!(!present(e));
    assert_eq!(pointed_frame(e), None);
}

#[test]
fn identity_map_translates_to_itself() {
    let mut mapper = Mapper::new(boot_memory(16), Frame::from_number(0));
    let mut alloc = Bump { next: 1, end: 16 };
    let f = Frame::containing_address(0x20_0000);
    assert_eq!(mapper.translate(0x20_0000), None);
    assert_eq!(mapper.identity_map(f.clone(), WRITABLE, &mut alloc), Ok(()));
    assert_eq!(mapper.translate(f.start_address()), Some(f.start_address()));
    assert_eq!(mapper.translate(0x20_0abc), Some(0x20_0abc));
    assert_eq!(mapper.translate(0x20_1000), None);
    // three new tables: level 3, level 2, level 1
    assert_eq!(alloc.next, 4);
}

#[test]
fn map_to_and_unmap() {
    let mut mapper = Mapper::new(boot_memory(16), Frame::from_number(0));
    let mut alloc = Bump { next: 1, end: 16 };
    let page = Page::containing_address(0x4000_0000);
    assert_eq!(mapper.map_to(page, Frame::from_number(0x99), WRITABLE, &mut alloc), Ok(()));
    assert_eq!(mapper.translate(0x4000_0010), Some(0x99010));
    assert_eq!(mapper.translate_page(page), Some(Frame::from_number(0x99)));
    // tables in frames 1, 2 and 3; the level-1 entry holds the frame and the flags
    assert_eq!(mapper.memory().read(3, 0), 0x99000 | WRITABLE | PRESENT);
    assert_eq!(mapper.memory().frame_use(3), FrameUse::Table(TableLevel::Level1));
    assert!(mapper.unmap(page));
    assert_eq!(mapper.translate(0x4000_0010), None);
    assert!(!mapper.unmap(page));
}

#[test]
fn map_takes_frame_from_allocator() {
    let mut mapper = Mapper::new(boot_memory(16), Frame::from_number(0));
    let mut alloc = Bump { next: 1, end: 16 };
    let page = Page::containing_address(0x1000);
    assert_eq!(mapper.map(page, WRITABLE, &mut alloc), Ok(()));
    assert_eq!(mapper.translate_page(page), Some(Frame::from_number(1)));
}

#[test]
fn map_fails_without_frames() {
    let mut mapper = Mapper::new(boot_memory(16), Frame::from_number(0));
    let mut alloc = Bump { next: 1, end: 3 };
    let page = Page::containing_address(0x1000);
    assert_eq!(mapper.map_to(page, Frame::from_number(9), WRITABLE, &mut alloc), Err(MapError::OutOfFrames));
    assert_eq!(mapper.translate(0x1000), None);
    assert!(entries_consistent(mapper.memory()));
}

#[test]
fn map_rejects_frame_outside_memory() {
    let mut mapper = Mapper::new(boot_memory(16), Frame::from_number(0));
    let mut alloc = Bump { next: 20, end: 30 };
    let page = Page::containing_address(0x1000);
    assert_eq!(
        mapper.map_to(page, Frame::from_number(9), WRITABLE, &mut alloc),
        Err(MapError::FrameUnavailable)
    );
}

#[test]
fn map_rejects_frame_in_use() {
    let mut mapper = Mapper::new(boot_memory(16), Frame::from_number(0));
    let mut alloc = Bump { next: 0, end: 16 };
    let page = Page::containing_address(0x1000);
    assert_eq!(
        mapper.map_to(page, Frame::from_number(9), WRITABLE, &mut alloc),
        Err(MapError::FrameUnavailable)
    );
}

#[test]
fn tiny_allocator_holds_three_frames() {
    let mut alloc = Bump { next: 1, end: 16 };
    let mut tiny = TinyAllocator::new(&mut alloc);
    assert_eq!(tiny.allocate_frame(), Some(Frame::from_number(1)));
    assert_eq!(tiny.allocate_frame(), Some(Frame::from_number(2)));
    assert_eq!(tiny.allocate_frame(), Some(Frame::from_number(3)));
    assert_eq!(tiny.allocate_frame(), None);
    tiny.deallocate_frame(Frame::from_number(2));
    assert_eq!(tiny.allocate_frame(), Some(Frame::from_number(2)));
}

#[test]
fn inactive_table_maps_itself() {
    let mut active = boot_table(32);
    let mut alloc = Bump { next: 1, end: 32 };
    let mut temp = temporary(&mut alloc);
    let frame = alloc.allocate_frame().unwrap();
    let n = frame.number();
    let mut table = InactivePageTable::new(frame, &mut active, &mut temp).unwrap();
    assert_eq!(table.p4_frame().number(), n);
    let mem = active.deref().memory();
    assert_eq!(mem.frame_use(n), FrameUse::Table(TableLevel::Level4));
    assert_eq!(pointed_frame(mem.read(n, 511)), Some(Frame::from_number(n)));
    for i in 0..511 {
        assert_eq!(mem.read(n, i), 0);
    }
    // the temporary page is unmapped again
    assert_eq!(active.deref().translate(0xcafe_babe_000), None);
    // through its recursive slot the table reaches itself
    assert_eq!(
        translate_in(&mut active, &mut table, &mut temp, 0xffff_ffff_ffff_f000),
        Some(n * PAGE_SIZE)
    );
}

#[test]
fn inactive_table_rejects_frame_in_use() {
    let mut active = boot_table(32);
    let mut alloc = Bump { next: 1, end: 32 };
    let mut temp = temporary(&mut alloc);
    let r = InactivePageTable::new(Frame::from_number(0), &mut active, &mut temp);
    assert!(matches!(r, Err(MapError::FrameUnavailable)));
    assert_eq!(active.deref().translate(0xcafe_babe_000), None);
}

#[test]
fn with_restores_recursive_slot() {
    let mut active = boot_table(32);
    let mut alloc = Bump { next: 1, end: 32 };
    let mut temp = temporary(&mut alloc);
    let frame = alloc.allocate_frame().unwrap();
    let mut table = InactivePageTable::new(frame, &mut active, &mut temp).unwrap();
    let before = active.deref().memory().read(0, 511);
    let r = active.with(&mut table, &mut temp, |mut m: Mapper| {
        let p4 = m.p4_frame();
        let r = m.identity_map(Frame::containing_address(0x10_0000), WRITABLE, &mut alloc);
        (m, (p4, r))
    });
    assert_eq!(r, Ok((table.p4_frame().number(), Ok(()))));
    assert_eq!(active.deref().memory().read(0, 511), before);
    assert_eq!(active.deref().p4_frame(), 0);
    // the mapping went to the inactive table only
    assert_eq!(active.deref().translate(0x10_0000), None);
    assert_eq!(translate_in(&mut active, &mut table, &mut temp, 0x10_0000), Some(0x10_0000));
}

#[test]
fn remap_maps_loaded_section() {
    let mut active = boot_table(64);
    let mut alloc = Bump { next: 1, end: 64 };
    let sections = vec![ElfSection { addr: 0x10_0000, size: 0x3000, allocated: true }];
    let mut table = remap_the_kernel(&mut alloc, &mut active, &sections).unwrap();
    let mut temp = temporary(&mut alloc);
    for &a in &[0x10_0000usize, 0x10_1000, 0x10_2000] {
        assert_eq!(translate_in(&mut active, &mut table, &mut temp, a), Some(a));
    }
    assert_eq!(translate_in(&mut active, &mut table, &mut temp, 0x10_3000), None);
    assert_eq!(active.deref().translate(0x10_0000), None);
    assert_eq!(active.deref().memory().read(0, 511), new_entry(&Frame::from_number(0), PRESENT | WRITABLE));
}

#[test]
fn remap_skips_unloaded_section() {
    let mut active = boot_table(64);
    let mut alloc = Bump { next: 1, end: 64 };
    let sections = vec![ElfSection { addr: 0x10_0000, size: 0x3000, allocated: false }];
    let mut table = remap_the_kernel(&mut alloc, &mut active, &sections).unwrap();
    let mut temp = temporary(&mut alloc);
    for &a in &[0x10_0000usize, 0x10_1000, 0x10_2000, 0x10_3000] {
        assert_eq!(translate_in(&mut active, &mut table, &mut temp, a), None);
    }
    // only the new table itself and the three frames of the temporary page
    assert_eq!(alloc.next, 8);
}

#[test]
fn remap_stops_when_frames_run_out() {
    for end in 1..8 {
        let mut active = boot_table(64);
        let mut alloc = Bump { next: 1, end };
        let sections = vec![ElfSection { addr: 0x10_0000, size: 0x3000, allocated: true }];
        let r = remap_the_kernel(&mut alloc, &mut active, &sections);
        assert!(matches!(r, Err(MapError::OutOfFrames)));
        assert!(entries_consistent(active.deref().memory()));
        assert_eq!(active.deref().memory().read(0, 511), new_entry(&Frame::from_number(0), PRESENT | WRITABLE));
    }
}

#[test]
fn remap_succeeds_with_just_enough_frames() {
    let mut active = boot_table(64);
    let mut alloc = Bump { next: 1, end: 8 };
    let sections = vec![ElfSection { addr: 0x10_0000, size: 0x3000, allocated: true }];
    assert!(remap_the_kernel(&mut alloc, &mut active, &sections).is_ok());
    assert_eq!(alloc.next, 8);
}

#[test]
fn remap_maps_every_loaded_section() {
    let mut active = boot_table(64);
    let mut alloc = Bump { next: 1, end: 64 };
    let sections = vec![
        ElfSection { addr: 0x10_0000, size: 0x1800, allocated: true },
        ElfSection { addr: 0x20_0000, size: 0x1000, allocated: false },
        ElfSection { addr: 0x4000_0000, size: 0x1000, allocated: true },
    ];
    let mut table = remap_the_kernel(&mut alloc, &mut active, &sections).unwrap();
    let mut temp = temporary(&mut alloc);
    assert_eq!(translate_in(&mut active, &mut table, &mut temp, 0x10_0000), Some(0x10_0000));
    assert_eq!(translate_in(&mut active, &mut table, &mut temp, 0x10_1234), Some(0x10_1234));
    assert_eq!(translate_in(&mut active, &mut table, &mut temp, 0x10_2000), None);
    assert_eq!(translate_in(&mut active, &mut table, &mut temp, 0x20_0000), None);
    assert_eq!(translate_in(&mut active, &mut table, &mut temp, 0x4000_0000), Some(0x4000_0000));
    assert!(entries_consistent(active.deref().memory()));
}

#[test]
fn allocated_frame_decisions() {
    let mem = boot_memory(8);
    assert_eq!(frame_for_table(&mem, None), Err(MapError::OutOfFrames));
    assert_eq!(frame_for_table(&mem, Some(Frame::from_number(3))), Ok(Frame::from_number(3)));
    assert_eq!(frame_for_table(&mem, Some(Frame::from_number(0))), Err(MapError::FrameUnavailable));
    assert_eq!(frame_for_table(&mem, Some(Frame::from_number(8))), Err(MapError::FrameUnavailable));
    assert_eq!(frame_for_page(None), Err(MapError::OutOfFrames));
    assert_eq!(frame_for_page(Some(Frame::from_number(0x123456))), Ok(Frame::from_number(0x123456)));
    assert_eq!(
        frame_for_page(Some(Frame::from_number(0x100_0000_0000))),
        Err(MapError::FrameUnavailable)
    );
}

#[test]
fn active_table_forwards_mapper_operations() {
    let mut active = boot_table(16);
    let mut alloc = Bump { next: 1, end: 16 };
    assert_eq!(active.identity_map(Frame::containing_address(0x3000), WRITABLE, &mut alloc), Ok(()));
    assert_eq!(active.translate(0x3010), Some(0x3010));
    let page = Page::containing_address(0x5000);
    assert_eq!(active.map_to(page, Frame::from_number(0x42), WRITABLE, &mut alloc), Ok(()));
    assert_eq!(active.translate(0x5008), Some(0x42008));
    assert!(active.unmap(page));
    assert_eq!(active.translate(0x5008), None);
    assert_eq!(active.translate(0x3010), Some(0x3010));
    assert_eq!(active.deref().memory().read(0, 511), new_entry(&Frame::from_number(0), PRESENT | WRITABLE));
}

#[test]
fn with_leaves_active_space_unchanged() {
    let mut active = boot_table(32);
    let mut alloc = Bump { next: 1, end: 32 };
    assert_eq!(active.identity_map(Frame::containing_address(0x7000), WRITABLE, &mut alloc), Ok(()));
    let mut temp = temporary(&mut alloc);
    let frame = alloc.allocate_frame().unwrap();
    let mut table = InactivePageTable::new(frame, &mut active, &mut temp).unwrap();
    let n = table.p4_frame().number();
    let slot = active.deref().memory().read(n, 511);
    let r = active.with(&mut table, &mut temp, |m: Mapper| (m, ()));
    assert_eq!(r, Ok(()));
    assert_eq!(table.p4_frame().number(), n);
    assert_eq!(active.deref().memory().read(n, 511), slot);
    assert_eq!(active.translate(0x7000), Some(0x7000));
    assert_eq!(active.translate(0xcafe_babe_000), None);
    assert_eq!(translate_in(&mut active, &mut table, &mut temp, 0x7000), None);
}
