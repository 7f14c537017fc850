use coconut::frame::{alloc_frame, alloc_frame_zeroed, free_frame, has_frames, init as frame_init};
use coconut::frame::SubRegion;
use coconut::highhalf::{build_boot_tables, remove_identity_mapping, HighHalf};
use coconut::highhalf::{BOOT_TABLES, KERNEL_VMA};
use coconut::mem::Memory;
use coconut::pmm::{align_down, align_up, alloc_region, free_region, init as pmm_init, Pmm};
use coconut::shared::{BootInfo, MemoryRegionDescriptor, MemoryRegionType};
use coconut::shared::{BOOT_INFO_MAGIC, BOOT_INFO_VERSION};
use coconut::start::{supervisor_main, StartError, Started};
use coconut::vmm::{map_2m, map_4k, phys_to_virt, set_higher_half_active, translate, unmap_4k};
use coconut::vmm::{virt_to_phys, AddressMap, Leaf, PageTableEntry, HHDM_OFFSET};
use coconut::vmm::{PTE_NO_EXECUTE, PTE_PRESENT, PTE_USER, PTE_WRITABLE};
use coconut::window::{map_mmio, mmio_needs, MmioWindow, MMIO_FLAGS, MMIO_VIRT_BASE};

const MIB: u64 = 0x10_0000;

fn info() -> BootInfo {
    BootInfo {
        magic: BOOT_INFO_MAGIC,
        version: BOOT_INFO_VERSION,
        memory_map_count: 1,
        memory_map_addr: 0x5000,
        supervisor_phys_base: 0x20_0000,
        supervisor_size: 0x1_8000,
        acpi_rsdp_addr: 0,
    }
}

fn usable(phys_start: u64, size: u64) -> MemoryRegionDescriptor {
    MemoryRegionDescriptor { phys_start, size, region_type: MemoryRegionType::Usable }
}

fn memory(mib: u64) -> Memory {
    Memory::new(vec![0u64; (mib * MIB / 8) as usize])
}

fn started(mib: u64) -> Started {
    let mut mem = memory(mib);
    let pml4 = build_boot_tables(&mut mem);
    match supervisor_main(mem, pml4, &info(), &[usable(0, mib * MIB)]) {
        Ok(s) => s,
        Err(_) => panic!("the supervisor does not start"),
    }
}

#[test]
fn alignment_rounds_both_ways() {
    assert_eq!(align_up(0x1001, 0x1000), 0x2000);
    assert_eq!(align_up(0x2000, 0x1000), 0x2000);
    assert_eq!(align_down(0x1FFF, 0x1000), 0x1000);
    assert_eq!(align_down(0, 0x1000), 0);
}

#[test]
fn regions_are_counted_from_the_memory_map() {
    let map = [
        usable(0, 32 * MIB),
        MemoryRegionDescriptor {
            phys_start: 32 * MIB,
            size: 4 * MIB,
            region_type: MemoryRegionType::AcpiReclaimable,
        },
        MemoryRegionDescriptor {
            phys_start: 64 * MIB,
            size: 4 * MIB,
            region_type: MemoryRegionType::Mmio,
        },
    ];
    let (mut pmm, summary) = pmm_init(&info(), &map).unwrap();
    assert_eq!(summary.total_bytes, 36 * MIB);
    assert_eq!(summary.total_regions, 18);
    assert_eq!(summary.reserved_bytes, 4 * MIB);
    assert_eq!(summary.free_regions, 12);
    assert_eq!(summary.supervisor_bytes, 2 * MIB);
    assert_eq!(pmm.count_free(100), 12);
    assert_eq!(pmm.count_free(5), 5);
    pmm.keep_below(16);
    assert_eq!(pmm.count_free(100), 12);
    pmm.keep_below(15);
    assert_eq!(pmm.count_free(100), 11);
}

#[test]
fn a_region_must_lie_whole_in_usable_memory() {
    let map = [usable(8 * MIB + 4096, 4 * MIB)];
    let (mut pmm, summary) = pmm_init(&info(), &map).unwrap();
    assert_eq!(summary.free_regions, 1);
    assert_eq!(alloc_region(&mut pmm), Some(10 * MIB));
    assert_eq!(alloc_region(&mut pmm), None);
}

#[test]
fn the_supervisors_regions_are_not_free() {
    let mut boot = info();
    boot.supervisor_phys_base = 10 * MIB;
    boot.supervisor_size = 1;
    let (mut pmm, _) = pmm_init(&boot, &[usable(0, 14 * MIB)]).unwrap();
    assert_eq!(alloc_region(&mut pmm), Some(8 * MIB));
    assert_eq!(alloc_region(&mut pmm), Some(12 * MIB));
    assert_eq!(alloc_region(&mut pmm), None);
}

#[test]
fn a_map_beyond_the_address_space_is_refused() {
    assert!(pmm_init(&info(), &[usable(u64::MAX - 4095, 8192)]).is_none());
    let mut boot = info();
    boot.supervisor_phys_base = u64::MAX;
    assert!(pmm_init(&boot, &[]).is_none());
}

#[test]
fn a_freed_region_is_handed_out_again() {
    let (mut pmm, _) = pmm_init(&info(), &[usable(0, 16 * MIB)]).unwrap();
    let first = alloc_region(&mut pmm).unwrap();
    assert_eq!(first, 8 * MIB);
    assert_eq!(alloc_region(&mut pmm), Some(10 * MIB));
    free_region(&mut pmm, first);
    assert_eq!(alloc_region(&mut pmm), Some(first));
    assert_eq!(Pmm::empty().count_free(1), 0);
}

#[test]
fn frames_come_from_the_lowest_region() {
    let (pmm, _) = pmm_init(&info(), &[usable(0, 12 * MIB)]).unwrap();
    let mut fa = frame_init(pmm);
    assert!(has_frames(&fa, 1024));
    assert!(!has_frames(&fa, 1025));
    assert_eq!(alloc_frame(&mut fa), Some(0x80_0000));
    assert_eq!(alloc_frame(&mut fa), Some(0x80_1000));
    free_frame(&mut fa, 0x80_0000);
    assert_eq!(alloc_frame(&mut fa), Some(0x80_0000));
    let mut left = 0;
    while alloc_frame(&mut fa).is_some() {
        left += 1;
    }
    assert_eq!(left, 1022);
}

#[test]
fn a_zeroed_frame_holds_only_zeros() {
    let (pmm, _) = pmm_init(&info(), &[usable(0, 12 * MIB)]).unwrap();
    let mut fa = frame_init(pmm);
    let mut mem = memory(12);
    mem.write(0x80_0FF8, 7);
    mem.write(0x80_1000, 9);
    assert_eq!(alloc_frame_zeroed(&mut fa, &mut mem), Some(0x80_0000));
    assert_eq!(mem.read(0x80_0FF8), 0);
    assert_eq!(mem.read(0x80_1000), 9);
}

#[test]
fn memory_is_read_and_written_by_words() {
    let mut mem = memory(1);
    mem.write(0x1008, 0x1122_3344_5566_7788);
    assert_eq!(mem.read(0x1008), 0x1122_3344_5566_7788);
    assert_eq!(mem.read_byte(0x1008), 0x88);
    assert_eq!(mem.read_byte(0x100F), 0x11);
    assert!(mem.holds(0, MIB));
    assert!(!mem.holds(1, MIB));
    mem.write_page(0x2000, &[1, 2, 3], 0);
    assert_eq!(mem.read(0x2000), 0x03_0201);
    assert_eq!(mem.read(0x2FF8), 0);
    mem.zero_frame(0x1000);
    assert_eq!(mem.read(0x1008), 0);
    assert_eq!(mem.words().len(), 0x2_0000);
}

#[test]
fn an_entry_gives_back_address_and_flags() {
    let mut e = PageTableEntry::empty();
    assert!(!e.is_present());
    e.set(0x1234_5000, PTE_PRESENT | PTE_WRITABLE | PTE_NO_EXECUTE);
    assert!(e.is_present());
    assert_eq!(e.phys_addr(), 0x1234_5000);
    assert_eq!(e.flags(), PTE_PRESENT | PTE_WRITABLE | PTE_NO_EXECUTE);
    e.clear();
    assert_eq!(e.0, 0);
}

#[test]
fn the_direct_map_goes_there_and_back() {
    let mut map = AddressMap { higher_half_active: false };
    assert_eq!(phys_to_virt(&map, 0x1000), 0x1000);
    set_higher_half_active(&mut map);
    assert_eq!(phys_to_virt(&map, 0x1000), HHDM_OFFSET + 0x1000);
    assert_eq!(virt_to_phys(&map, HHDM_OFFSET + 0x1000), 0x1000);
}

#[test]
fn mapping_and_unmapping_a_page() {
    let mut s = started(16).supervisor;
    let root = alloc_frame_zeroed(&mut s.frames, &mut s.mem).unwrap();
    let flags = PTE_USER | PTE_NO_EXECUTE;
    assert!(map_4k(&mut s.frames, &mut s.mem, root, 0x1000, 0x90_0000, flags));
    assert_eq!(
        translate(&s.mem, root, 0x1FFF),
        Leaf::Page4K(0x90_0000 | flags | PTE_PRESENT)
    );
    assert_eq!(translate(&s.mem, root, 0x2000), Leaf::Unmapped);
    assert_eq!(unmap_4k(&mut s.mem, root, 0x1000), Some(0x90_0000));
    assert_eq!(translate(&s.mem, root, 0x1000), Leaf::Unmapped);
    assert_eq!(unmap_4k(&mut s.mem, root, 0x1000), None);
}

#[test]
fn mapping_a_large_page() {
    let mut s = started(16).supervisor;
    let root = alloc_frame_zeroed(&mut s.frames, &mut s.mem).unwrap();
    assert!(map_2m(&mut s.frames, &mut s.mem, root, 0x40_0000, 0x60_0000, PTE_WRITABLE));
    assert_eq!(
        translate(&s.mem, root, 0x5F_FFFF),
        Leaf::Page2M(0x60_0000 | PTE_WRITABLE | PTE_PRESENT | 0x80)
    );
    assert_eq!(translate(&s.mem, root, 0x60_0000), Leaf::Unmapped);
}

#[test]
fn new_tables_are_linked_with_rights() {
    let addr = 0x000F_FFFF_FFFF_F000;
    let mut s = started(16).supervisor;
    let root = alloc_frame_zeroed(&mut s.frames, &mut s.mem).unwrap();
    assert!(map_4k(&mut s.frames, &mut s.mem, root, 0x1000, 0x90_0000, PTE_USER));
    let mut table = root;
    for _ in 0..3 {
        let e = s.mem.read(table);
        assert_eq!(e & !addr, PTE_PRESENT | PTE_WRITABLE | PTE_USER);
        table = e & addr;
    }
    assert_eq!(s.mem.read(table + 8), 0x90_0000 | PTE_PRESENT | PTE_USER);

    let root = alloc_frame_zeroed(&mut s.frames, &mut s.mem).unwrap();
    assert!(map_2m(&mut s.frames, &mut s.mem, root, 0, 0x60_0000, PTE_WRITABLE));
    let mut table = root;
    for _ in 0..2 {
        let e = s.mem.read(table);
        assert_eq!(e & !addr, PTE_PRESENT | PTE_WRITABLE);
        table = e & addr;
    }
    assert_eq!(s.mem.read(table), 0x60_0000 | PTE_PRESENT | PTE_WRITABLE | 0x80);
}

#[test]
fn the_address_of_an_entry_is_cut_to_what_it_holds() {
    let mut s = started(16).supervisor;
    let root = alloc_frame_zeroed(&mut s.frames, &mut s.mem).unwrap();
    let phys = 0xFFF0_0000_0090_0ABC;
    assert!(map_4k(&mut s.frames, &mut s.mem, root, 0x1000, phys, PTE_USER));
    assert_eq!(unmap_4k(&mut s.mem, root, 0x1000), Some(0x90_0000));
}

#[test]
fn a_region_hands_out_its_frames_in_order() {
    let (pmm, _) = pmm_init(&info(), &[usable(0, 10 * MIB)]).unwrap();
    let mut fa = frame_init(pmm);
    for k in 0..512 {
        assert_eq!(alloc_frame(&mut fa), Some(0x80_0000 + 4096 * k));
    }
    assert_eq!(alloc_frame(&mut fa), None);
    free_frame(&mut fa, 0x80_0000 + 4096 * 7);
    assert_eq!(alloc_frame(&mut fa), Some(0x80_0000 + 4096 * 7));
    assert_eq!(alloc_frame(&mut fa), None);
}

#[test]
fn mapping_fails_without_frames() {
    let (pmm, _) = pmm_init(&info(), &[usable(0, 10 * MIB)]).unwrap();
    let mut fa = frame_init(pmm);
    let mut mem = memory(10);
    let root = alloc_frame_zeroed(&mut fa, &mut mem).unwrap();
    while has_frames(&fa, 3) {
        alloc_frame(&mut fa);
    }
    assert!(!map_4k(&mut fa, &mut mem, root, 0x1000, 0x90_0000, PTE_USER));
    assert!(has_frames(&fa, 2));
}

#[test]
fn boot_tables_map_the_first_gigabyte_three_times() {
    let mut mem = memory(8);
    let pml4 = build_boot_tables(&mut mem);
    assert_eq!(pml4, BOOT_TABLES);
    let page = Leaf::Page2M(0x20_0000 | 0x83);
    assert_eq!(translate(&mem, pml4, 0x20_1234), page);
    assert_eq!(translate(&mem, pml4, HHDM_OFFSET + 0x20_1234), page);
    assert_eq!(translate(&mem, pml4, KERNEL_VMA + 0x20_1234), page);
    assert_eq!(translate(&mem, pml4, 0x4000_0000), Leaf::Unmapped);
    remove_identity_mapping(&mut mem, pml4);
    assert_eq!(translate(&mem, pml4, 0x20_1234), Leaf::Unmapped);
    assert_eq!(translate(&mem, pml4, HHDM_OFFSET + 0x20_1234), page);
    assert_eq!(translate(&mem, pml4, KERNEL_VMA + 0x20_1234), page);
}

#[test]
fn the_root_table_is_remembered() {
    let mut h = HighHalf::new();
    assert_eq!(h.supervisor_pml4(), 0);
    h.set_supervisor_pml4(BOOT_TABLES);
    assert_eq!(h.supervisor_pml4(), BOOT_TABLES);
}

#[test]
fn the_supervisor_starts_empty() {
    let s = started(32);
    assert_eq!(s.summary.free_regions, 12);
    assert_eq!(s.high_half.supervisor_pml4(), BOOT_TABLES);
    assert!(s.supervisor.table.current.is_none());
    assert!(has_frames(&s.supervisor.frames, 12 * 512));
    assert!(!has_frames(&s.supervisor.frames, 12 * 512 + 1));
    assert_eq!(translate(&s.supervisor.mem, BOOT_TABLES, 0x1000), Leaf::Unmapped);
}

#[test]
fn the_supervisor_refuses_bad_boot_information() {
    let mut boot = info();
    boot.magic = 1;
    let mut mem = memory(16);
    let pml4 = build_boot_tables(&mut mem);
    let r = supervisor_main(mem, pml4, &boot, &[usable(0, 16 * MIB)]);
    assert!(matches!(r, Err(StartError::BadMagic)));

    let mut mem = memory(16);
    let pml4 = build_boot_tables(&mut mem);
    let r = supervisor_main(mem, pml4, &info(), &[usable(u64::MAX - 4095, 8192)]);
    assert!(matches!(r, Err(StartError::BadMap)));
}

#[test]
fn memory_that_is_not_mapped_stays_out_of_use() {
    let mut mem = memory(16);
    let pml4 = build_boot_tables(&mut mem);
    let s = supervisor_main(mem, pml4, &info(), &[usable(0, 32 * MIB)]).ok().unwrap();
    assert_eq!(s.summary.free_regions, 12);
    assert!(has_frames(&s.supervisor.frames, 4 * 512));
    assert!(!has_frames(&s.supervisor.frames, 4 * 512 + 1));
}

#[test]
fn device_registers_are_mapped_one_after_the_other() {
    let mut s = started(16).supervisor;
    let mut window = MmioWindow::new();
    let needs = mmio_needs(&window, &s.mem, BOOT_TABLES, 0xFED9_0010, 4096);
    assert_eq!(needs, Some(2));
    let a = map_mmio(&mut window, &mut s.frames, &mut s.mem, BOOT_TABLES, 0xFED9_0010, 4096);
    assert_eq!(a, Some(MMIO_VIRT_BASE + 0x10));
    let b = map_mmio(&mut window, &mut s.frames, &mut s.mem, BOOT_TABLES, 0xFEBF_0000, 4096);
    assert_eq!(b, Some(MMIO_VIRT_BASE + 0x2000));
    assert_eq!(
        translate(&s.mem, BOOT_TABLES, MMIO_VIRT_BASE + 0x1000),
        Leaf::Page4K(0xFED9_1000 | MMIO_FLAGS)
    );
    assert_eq!(
        translate(&s.mem, BOOT_TABLES, MMIO_VIRT_BASE + 0x2000),
        Leaf::Page4K(0xFEBF_0000 | MMIO_FLAGS)
    );
}

#[test]
fn a_device_region_may_end_with_the_address_space() {
    let mut s = started(16).supervisor;
    let mut window = MmioWindow::new();
    let last = u64::MAX - 4095;
    let a = map_mmio(&mut window, &mut s.frames, &mut s.mem, BOOT_TABLES, last, 4096);
    assert_eq!(a, Some(MMIO_VIRT_BASE));
    assert_eq!(
        translate(&s.mem, BOOT_TABLES, MMIO_VIRT_BASE),
        Leaf::Page4K(0x000F_FFFF_FFFF_F000 | MMIO_FLAGS)
    );
    assert_eq!(mmio_needs(&window, &s.mem, BOOT_TABLES, last, 4097), None);
}

#[test]
fn a_region_alone_hands_out_its_frames_in_order() {
    let base = 0x80_0000;
    let mut r = SubRegion::new(base);
    for k in 0..512 {
        assert_eq!(r.take(), Some(base + k * 4096));
    }
    assert_eq!(r.take(), None);
    assert!(r.contains(base + 0x1F_FFFF));
    assert!(!r.contains(base + 0x20_0000));
    assert!(!r.free(base - 1));
    assert!(r.free(base + 7 * 4096));
    assert_eq!(r.take(), Some(base + 7 * 4096));
    assert_eq!(r.take(), None);
}
