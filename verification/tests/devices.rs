use coconut::acpi::{find_table, init as acpi_init, AcpiError};
use coconut::gdt::{init as gdt_init, GdtEntry, KERNEL_CS, TSS_SELECTOR, USER_CS, USER_DS};
use coconut::highhalf::{build_boot_tables, BOOT_TABLES};
use coconut::idt::{init as idt_init, Handlers, IdtEntry, TIMER_VECTOR};
use coconut::iommu::{find_units, prepare_unit, process_drhd, version, UnitAccess, UnitPhase};
use coconut::iommu::{GCMD_SRTP, GCMD_TE, MAX_POLLS, REG_GCMD, REG_GSTS, REG_RTADDR};
use coconut::mem::Memory;
use coconut::pci::{class_name, config_addr, find_display_device, gpu_count, init as pci_init};
use coconut::pci::{probe_bars, probe_function, BarAccess, BarInfo, BarProbe, PciTable};
use coconut::pic::{init as pic_init, mask_port, send_eoi, unmask};
use coconut::pit::{increment_ticks, init as pit_init};
use coconut::port::{outb, PortWrite};
use coconut::serial::{write_str, SerialPort};
use coconut::shared::{BootInfo, MemoryRegionDescriptor, MemoryRegionType};
use coconut::shared::{BOOT_INFO_MAGIC, BOOT_INFO_VERSION};
use coconut::start::supervisor_main;
use coconut::tss::{encode, init as tss_init, set_rsp0, tss_size};
use coconut::vmm::{translate, Leaf};
use coconut::window::{MmioWindow, MMIO_FLAGS, MMIO_VIRT_BASE};

#[test]
fn the_serial_port_is_set_up() {
    let port = SerialPort::new(0x3F8);
    let w = port.init();
    let expected = [
        (0x3F9, 0x00),
        (0x3FB, 0x80),
        (0x3F8, 0x01),
        (0x3F9, 0x00),
        (0x3FB, 0x03),
        (0x3FA, 0xC7),
        (0x3FC, 0x0B),
    ];
    for (i, e) in expected.iter().enumerate() {
        assert_eq!(w[i], PortWrite { port: e.0, value: e.1 });
    }
    assert_eq!(port.status_port(), 0x3FD);
    assert_eq!(port.write_byte(0x00, 0x41), None);
    assert_eq!(port.write_byte(0x20, 0x41), Some(outb(0x3F8, 0x41)));
}

#[test]
fn a_line_feed_follows_a_return() {
    assert_eq!(write_str(b"a\nb"), b"a\r\nb");
    assert_eq!(write_str(b""), b"");
}

#[test]
fn interrupts_are_remapped_and_masked() {
    let w = pic_init();
    let first: Vec<PortWrite> = w.iter().copied().filter(|w| w.port != 0x80).collect();
    let expected = [
        (0x20, 0x11),
        (0xA0, 0x11),
        (0x21, 32),
        (0xA1, 40),
        (0x21, 4),
        (0xA1, 2),
        (0x21, 1),
        (0xA1, 1),
        (0x21, 0xFF),
        (0xA1, 0xFF),
    ];
    assert_eq!(first.len(), expected.len());
    for (i, e) in expected.iter().enumerate() {
        assert_eq!(first[i], PortWrite { port: e.0, value: e.1 });
    }
}

#[test]
fn one_interrupt_is_unmasked() {
    assert_eq!(mask_port(0), 0x21);
    assert_eq!(mask_port(9), 0xA1);
    assert_eq!(unmask(0, 0xFF), outb(0x21, 0xFE));
    assert_eq!(unmask(9, 0xFF), outb(0xA1, 0xFD));
    assert_eq!(send_eoi(3), vec![outb(0x20, 0x20)]);
    assert_eq!(send_eoi(8), vec![outb(0xA0, 0x20), outb(0x20, 0x20)]);
}

#[test]
fn the_timer_ticks_a_thousand_times_a_second() {
    let w = pit_init();
    assert_eq!(w[0], outb(0x43, 0x34));
    let divisor = w[1].value as u32 + 256 * w[2].value as u32;
    assert_eq!((w[1].port, w[2].port), (0x40, 0x40));
    assert_eq!(divisor, 1193);
    let mut ticks = u64::MAX;
    increment_ticks(&mut ticks);
    assert_eq!(ticks, 0);
}

#[test]
fn segments_are_described() {
    assert_eq!(GdtEntry::null().encode(), 0);
    assert_eq!(GdtEntry::kernel_code().encode(), 0x00AF_9A00_0000_FFFF);
    assert_eq!(GdtEntry::kernel_data().encode(), 0x00CF_9200_0000_FFFF);
    assert_eq!(GdtEntry::user_data().encode(), 0x00CF_F200_0000_FFFF);
    assert_eq!(GdtEntry::user_code().encode(), 0x00AF_FA00_0000_FFFF);
    let t = gdt_init(0xFFFF_FFFF_8030_1000, tss_size());
    assert_eq!(t[0], 0);
    assert_eq!(t[(KERNEL_CS / 8) as usize], GdtEntry::kernel_code().encode());
    assert_eq!(t[(USER_DS / 8) as usize], GdtEntry::user_data().encode());
    assert_eq!(t[(USER_CS / 8) as usize], GdtEntry::user_code().encode());
    let tss = t[(TSS_SELECTOR / 8) as usize];
    assert_eq!(tss & 0xFFFF, 103);
    assert_eq!(((tss >> 16) & 0xFF_FFFF) | ((tss >> 56) << 24), 0x8030_1000);
    assert_eq!((tss >> 40) & 0xFF, 0x89);
    assert_eq!(t[6], 0xFFFF_FFFF);
}

#[test]
fn the_task_state_names_the_kernel_stack() {
    let mut t = tss_init(0x1122_3344_5566_7788);
    assert_eq!(tss_size(), 104);
    let b = encode(&t);
    assert_eq!(b.len(), 104);
    assert_eq!(&b[4..12], &0x1122_3344_5566_7788u64.to_le_bytes());
    assert_eq!(&b[102..104], &104u16.to_le_bytes());
    set_rsp0(&mut t, 5);
    assert_eq!(&encode(&t)[4..12], &5u64.to_le_bytes());
}

#[test]
fn interrupt_entries_name_their_handlers() {
    let e = IdtEntry::new(0x1122_3344_5566_7788);
    assert_eq!(e.offset_low, 0x7788);
    assert_eq!(e.offset_mid, 0x5566);
    assert_eq!(e.offset_high, 0x1122_3344);
    assert_eq!((e.selector, e.ist, e.type_attr), (0x08, 0, 0x8E));
    assert_eq!(e.encode(), (0x5566_8E00_0008_7788, 0x1122_3344));
    assert_eq!(IdtEntry::missing().encode(), (0, 0));
    let h = Handlers {
        divide_error: 1,
        double_fault: 2,
        protection_fault: 3,
        page_fault: 4,
        timer: 5,
        default: 6,
    };
    let t = idt_init(&h);
    assert_eq!(t[0], IdtEntry::new(1));
    assert_eq!(t[8], IdtEntry::new(2));
    assert_eq!(t[13], IdtEntry::new(3));
    assert_eq!(t[14], IdtEntry::new(4));
    assert_eq!(t[TIMER_VECTOR], IdtEntry::new(5));
    assert_eq!(t[255], IdtEntry::new(6));
}

#[test]
fn configuration_addresses_are_packed() {
    assert_eq!(config_addr(0, 0, 0, 0), 0x8000_0000);
    assert_eq!(config_addr(1, 2, 3, 0x13), 0x8001_1310);
}

#[test]
fn device_classes_have_names() {
    assert_eq!(class_name(0x03, 0x00), "VGA compatible controller");
    let d = probe_function(0, 2, 1, 0x1111_1234, 0x0300_0002);
    assert_eq!((d.vendor_id, d.device_id), (0x1234, 0x1111));
    assert_eq!((d.class, d.subclass), (3, 0));
    assert_eq!((d.bus, d.device, d.function), (0, 2, 1));
}

/// Scan a bus with a bridge in slot 0 and a display controller with two functions in slot 2.
fn scan() -> PciTable {
    let mut t = pci_init();
    while let Some(r) = t.pending() {
        let present = r.bus == 0 && ((r.device == 0 && r.function == 0) || (r.device == 2 && r.function < 2));
        let value = match (present, r.offset) {
            (false, _) => 0xFFFF_FFFF,
            (true, 0x00) => 0x1111_1234 + r.function as u32,
            (true, 0x08) => {
                if r.device == 2 {
                    0x0300_0000
                } else {
                    0x0600_0000
                }
            }
            (true, 0x0C) => {
                if r.device == 2 {
                    0x0080_0000
                } else {
                    0
                }
            }
            _ => panic!("an unexpected register is read"),
        };
        t.step(value);
    }
    t
}

#[test]
fn the_scan_finds_every_function() {
    let t = scan();
    assert_eq!(t.list().len(), 3);
    assert_eq!(gpu_count(&t), 2);
    let d = find_display_device(&t).unwrap();
    assert_eq!((d.bus, d.device, d.function), (0, 2, 0));
    assert!(find_display_device(&pci_init()).is_none());
}

#[test]
fn base_address_registers_are_decoded() {
    let original = [0xFD00_0008, 0, 0xFEBF_0000, 0x0000_C001, 0xE000_000C, 0x0000_0001];
    let mask = [0xFF00_0008, 0, 0xFFFF_F000, 0xFFFF_FF01, 0xF000_000C, 0xFFFF_FFFF];
    let bars = probe_bars(&original, &mask);
    assert_eq!(
        bars[0],
        BarInfo {
            phys_base: 0xFD00_0000,
            size: 0x100_0000,
            is_memory: true,
            is_64bit: false,
            prefetchable: true,
        }
    );
    assert_eq!(bars[1], BarInfo::empty());
    assert_eq!((bars[2].phys_base, bars[2].size), (0xFEBF_0000, 0x1000));
    assert!(!bars[2].prefetchable);
    assert_eq!(bars[3], BarInfo::empty());
    assert_eq!((bars[4].phys_base, bars[4].size), (0x1_E000_0000, 0x1000_0000));
    assert!(bars[4].is_64bit);
    assert_eq!(bars[5], BarInfo::empty());
}

#[test]
fn probing_restores_the_registers() {
    let mut regs = [0u32; 64];
    regs[1] = 0x0000_0007;
    regs[4] = 0xFD00_0008;
    let masks = [0xFF00_0008u32, 0, 0, 0, 0, 0];
    let before = regs;
    let mut p = BarProbe::new();
    let mut off = false;
    loop {
        match p.pending() {
            BarAccess::Done => break,
            BarAccess::Read { offset } => p.step(regs[offset as usize / 4]),
            BarAccess::Write { offset, value } => {
                let i = offset as usize / 4;
                if (4..10).contains(&i) {
                    assert_eq!(regs[1] & 3, 0);
                    off = true;
                    regs[i] = if value == 0xFFFF_FFFF { masks[i - 4] } else { value };
                } else {
                    regs[i] = value;
                }
                p.step(0);
            }
        }
    }
    assert!(off);
    assert_eq!(regs, before);
    assert_eq!(p.bars()[0].size, 0x100_0000);
}

fn put(mem: &mut Memory, at: u64, bytes: &[u8]) {
    for (i, b) in bytes.iter().enumerate() {
        let a = at + i as u64;
        let word = a / 8 * 8;
        let shift = 8 * (a % 8);
        let old = mem.read(word) & !(0xFF << shift);
        mem.write(word, old | ((*b as u64) << shift));
    }
}

fn fix(mem: &mut Memory, at: u64, len: u64, sum_at: u64) {
    put(mem, at + sum_at, &[0]);
    let mut sum = 0u8;
    for i in 0..len {
        sum = sum.wrapping_add(mem.read_byte(at + i));
    }
    put(mem, at + sum_at, &[0u8.wrapping_sub(sum)]);
}

/// Tables at 0x1000 (root pointer), 0x2000 (root table) and 0x3000 (DMAR with one unit).
fn tables(revision: u8) -> Memory {
    let mut mem = Memory::new(vec![0u64; 0x2_0000]);
    put(&mut mem, 0x1000, b"RSD PTR ");
    put(&mut mem, 0x100F, &[revision]);
    put(&mut mem, 0x1010, &0x2000u32.to_le_bytes());
    put(&mut mem, 0x1018, &0x2000u64.to_le_bytes());
    fix(&mut mem, 0x1000, 20, 8);
    fix(&mut mem, 0x1000, 36, 32);
    put(&mut mem, 0x2000, b"XSDT");
    if revision >= 2 {
        put(&mut mem, 0x2004, &(36u32 + 8).to_le_bytes());
        put(&mut mem, 0x2024, &0x3000u64.to_le_bytes());
        fix(&mut mem, 0x2000, 44, 9);
    } else {
        put(&mut mem, 0x2004, &(36u32 + 4).to_le_bytes());
        put(&mut mem, 0x2024, &0x3000u32.to_le_bytes());
        fix(&mut mem, 0x2000, 40, 9);
    }
    put(&mut mem, 0x3000, b"DMAR");
    put(&mut mem, 0x3004, &64u32.to_le_bytes());
    put(&mut mem, 0x3030, &[0, 0, 16, 0, 1, 0, 0, 0]);
    put(&mut mem, 0x3038, &0xFED9_0000u64.to_le_bytes());
    mem
}

#[test]
fn firmware_tables_are_found() {
    for revision in [0, 2] {
        let mem = tables(revision);
        let t = acpi_init(&mem, 0x1000).ok().unwrap();
        assert_eq!(t.list().len(), 1);
        assert_eq!(find_table(&t, b"DMAR"), Some((0x3000, 64)));
        assert_eq!(find_table(&t, b"APIC"), None);
    }
    assert_eq!(acpi_init(&tables(0), 0).ok().unwrap().list().len(), 0);
}

#[test]
fn damaged_firmware_tables_are_refused() {
    let mem = tables(2);
    assert_eq!(acpi_init(&mem, 0x10_0000).err(), Some(AcpiError::Unreadable));
    assert_eq!(acpi_init(&mem, 0x1004).err(), Some(AcpiError::BadSignature));
    let mut mem = tables(2);
    put(&mut mem, 0x1009, &[1]);
    assert_eq!(acpi_init(&mem, 0x1000).err(), Some(AcpiError::BadChecksum));
    let mut mem = tables(2);
    put(&mut mem, 0x1021, &[1]);
    assert_eq!(acpi_init(&mem, 0x1000).err(), Some(AcpiError::BadExtendedChecksum));
    let mut mem = tables(2);
    put(&mut mem, 0x2010, &[1]);
    assert_eq!(acpi_init(&mem, 0x1000).err(), Some(AcpiError::BadTableChecksum));
    let mut mem = tables(2);
    put(&mut mem, 0x2004, &20u32.to_le_bytes());
    fix(&mut mem, 0x2000, 20, 9);
    assert_eq!(acpi_init(&mem, 0x1000).err(), Some(AcpiError::TooShort));
}

#[test]
fn remapping_units_are_found() {
    let mem = tables(2);
    let units = find_units(&mem, 0x3000, 64).unwrap();
    assert_eq!(units.len(), 1);
    assert_eq!(units[0].reg_base, 0xFED9_0000);
    assert!(units[0].handles_all());
    assert!(find_units(&mem, 0x3000, 0x20_0000).is_none());
    assert_eq!(version(0x10), (1, 0));
}

#[test]
fn a_unit_gets_an_empty_root_table() {
    let mut mem = Memory::new(vec![0u64; 0x18_0000]);
    let pml4 = build_boot_tables(&mut mem);
    let info = BootInfo {
        magic: BOOT_INFO_MAGIC,
        version: BOOT_INFO_VERSION,
        memory_map_count: 1,
        memory_map_addr: 0x5000,
        supervisor_phys_base: 0x20_0000,
        supervisor_size: 0x1_8000,
        acpi_rsdp_addr: 0,
    };
    let map = [MemoryRegionDescriptor {
        phys_start: 0,
        size: 0xC0_0000,
        region_type: MemoryRegionType::Usable,
    }];
    let mut s = supervisor_main(mem, pml4, &info, &map).ok().unwrap().supervisor;
    let mut window = MmioWindow::new();
    let (regs, root, context) = prepare_unit(
        &s.table,
        &mut window,
        &mut s.frames,
        &mut s.mem,
        BOOT_TABLES,
        0xFED9_0000,
    )
    .unwrap();
    assert_eq!(regs, MMIO_VIRT_BASE);
    assert_eq!(translate(&s.mem, BOOT_TABLES, regs), Leaf::Page4K(0xFED9_0000 | MMIO_FLAGS));
    assert_ne!(root, context);
    for i in 0..512 {
        assert_eq!(s.mem.read(root + 8 * i), 0);
    }
}

#[test]
fn a_unit_is_switched_on_step_by_step() {
    let mut u = process_drhd(0x90_0000);
    let mut writes = Vec::new();
    let mut status = 0u32;
    while let Some(a) = u.pending() {
        match a {
            UnitAccess::Read32 { offset: REG_GSTS } => u.step(status as u64),
            UnitAccess::Read32 { .. } | UnitAccess::Read64 { .. } => u.step(0x10),
            UnitAccess::Write32 { offset, value } => {
                writes.push((offset, value as u64));
                status |= value;
                u.step(0);
            }
            UnitAccess::Write64 { offset, wide } => {
                writes.push((offset, wide));
                u.step(0);
            }
        }
    }
    assert_eq!(u.phase, UnitPhase::Enabled);
    assert_eq!(
        writes,
        vec![
            (REG_RTADDR, 0x90_0000),
            (REG_GCMD, GCMD_SRTP as u64),
            (REG_GCMD, (GCMD_SRTP | GCMD_TE) as u64),
        ]
    );
}

#[test]
fn a_unit_that_does_not_answer_times_out() {
    let mut u = process_drhd(0x90_0000);
    let mut polls = 0;
    while let Some(a) = u.pending() {
        if a == (UnitAccess::Read32 { offset: REG_GSTS }) {
            polls += 1;
        }
        u.step(0);
    }
    assert_eq!(u.phase, UnitPhase::TimedOut);
    assert_eq!(polls, MAX_POLLS);
}
