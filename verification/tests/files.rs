use coconut::boot::{boot_info, build_memory_map, translate_memory_type, FirmwareRegion};
use coconut::boot::{BOOT_INFO_PAGES, BOOT_INFO_SIZE, DESCRIPTOR_SIZE, MAX_MMAP_ENTRIES};
use coconut::bytes::{read_u16_le, read_u32_le, read_u64_le};
use coconut::bytes::{write_u16_le, write_u32_le, write_u64_le};
use coconut::elf::{load_elf_segments, parse_elf64, Elf64Header, Elf64Phdr};
use coconut::ext2::{file_count, init as mount, lookup, read_data, read_inode, Inode};
use coconut::fs::{handle_fs_close, handle_fs_open, handle_fs_read, handle_fs_stat};
use coconut::fs::{init as fs_init, OpenFiles};
use coconut::mkfs::{build_image, Lcg, ModelShape, IMAGE_SIZE};
use coconut::shared::{MemoryRegionType, BOOT_INFO_MAGIC};
use coconut::user::UserMemory;

#[test]
fn numbers_are_little_endian() {
    let mut b = [0u8; 16];
    write_u16_le(&mut b, 0, 0x1122);
    write_u32_le(&mut b, 2, 0x3344_5566);
    write_u64_le(&mut b, 8, 0x0102_0304_0506_0708);
    assert_eq!(b, [0x22, 0x11, 0x66, 0x55, 0x44, 0x33, 0, 0, 8, 7, 6, 5, 4, 3, 2, 1]);
    assert_eq!(read_u16_le(&b, 0), 0x1122);
    assert_eq!(read_u32_le(&b, 2), 0x3344_5566);
    assert_eq!(read_u64_le(&b, 8), 0x0102_0304_0506_0708);
}

fn model(len: usize) -> Vec<u8> {
    (0..len).map(|i| (i * 7 + i / 251) as u8).collect()
}

#[test]
fn an_image_holds_two_files() {
    let image = build_image(&model(100)).unwrap();
    assert_eq!(image.len(), IMAGE_SIZE);
    let (fs, report) = fs_init(&image).unwrap();
    assert_eq!(report.size_kib, 128);
    assert_eq!(report.files, 2);
    assert_eq!(fs.block_size, 1024);
    assert_eq!(fs.inode_size, 128);
    assert_eq!(fs.inodes_per_group, 32);
    assert_eq!(file_count(&fs), 2);
    assert_eq!(lookup(&fs, b"/hello.txt"), Some(11));
    assert_eq!(lookup(&fs, b"hello.txt"), Some(11));
    assert_eq!(lookup(&fs, b"/model.bin"), Some(12));
    assert_eq!(lookup(&fs, b"/"), Some(2));
    assert_eq!(lookup(&fs, b""), Some(2));
    assert_eq!(lookup(&fs, b"/hello"), None);
    assert_eq!(lookup(&fs, b"/other.txt"), None);
}

#[test]
fn the_greeting_is_read_back() {
    let image = build_image(&[]).unwrap();
    let fs = mount(&image).unwrap();
    let inode = read_inode(&fs, 11).unwrap();
    assert_eq!(inode.size, 22);
    assert_eq!(inode.mode, 0o100644);
    let mut buf = [0xFFu8; 30];
    assert_eq!(read_data(&fs, &inode, 0, &mut buf), 22);
    assert_eq!(&buf[..23], b"Hello from coconutFS!\n\xFF");
    assert_eq!(read_data(&fs, &inode, 6, &mut buf[..4]), 4);
    assert_eq!(&buf[..4], b"from");
    assert_eq!(read_data(&fs, &inode, 22, &mut buf), 0);
}

#[test]
fn a_model_with_indirect_blocks_is_read_back() {
    for len in [1, 1024, 12 * 1024, 12 * 1024 + 1, 87_708, 116 * 1024] {
        let data = model(len);
        let image = build_image(&data).unwrap();
        let fs = mount(&image).unwrap();
        let inode = read_inode(&fs, 12).unwrap();
        assert_eq!(inode.size as usize, len);
        let mut buf = vec![0u8; len + 10];
        assert_eq!(read_data(&fs, &inode, 0, &mut buf), len);
        assert_eq!(&buf[..len], &data[..]);
    }
}

#[test]
fn a_model_that_is_too_large_has_no_image() {
    assert!(build_image(&model(116 * 1024 + 1)).is_none());
    assert!(build_image(&vec![0; 0x10_0000]).is_none());
}

#[test]
fn the_image_is_consistent() {
    let image = build_image(&model(87_708)).unwrap();
    // 86 blocks of data and one of pointers follow the first eleven blocks.
    assert_eq!(read_u32_le(&image, 1036), 128 - 98);
    assert_eq!(read_u16_le(&image, 2060), 128 - 98);
    assert_eq!(read_u16_le(&image, 1080), 0xEF53);
    assert_eq!(&image[3072..3085], &[255, 255, 255, 255, 255, 255, 255, 255, 255, 255, 255, 255, 3]);
    assert_eq!(&image[4096..4099], &[0xFF, 0x0F, 0]);
    assert_eq!(read_u32_le(&image, 6528 + 28), 2 * 87);
    assert_eq!(read_u32_le(&image, 6528 + 88), 23);
    assert_eq!(read_u32_le(&image, 23552), 24);
}

#[test]
fn the_model_is_always_the_same() {
    let mut g = Lcg::new(42);
    assert_eq!(g.next(), 42u64.wrapping_mul(6364136223846793005).wrapping_add(1442695040888963407));
    let mut a = Lcg::new(42);
    let mut b = Lcg::new(42);
    assert_eq!(a.next_weight() as u64, b.next() >> 32);
    let shape = ModelShape::embedded();
    let header = shape.header();
    assert_eq!(header.len(), 28);
    assert_eq!(read_u32_le(&header, 0), 32);
    assert_eq!(read_u32_le(&header, 4), 64);
    assert_eq!(read_u32_le(&header, 24), 32);
    assert_eq!(ModelShape::embedded_weights(), 21_920);
}

#[test]
fn what_is_no_image_is_not_mounted() {
    assert!(mount(&[0; 100]).is_none());
    let mut image = build_image(&[]).unwrap();
    image[1080] = 0;
    assert!(mount(&image).is_none());
    let mut image = build_image(&[]).unwrap();
    image[1048] = 22;
    assert!(mount(&image).is_none());
    let image = build_image(&[]).unwrap();
    assert!(mount(&image[..2059]).is_none());
    assert!(mount(&image[..2060]).is_some());
}

#[test]
fn inodes_outside_the_image_are_not_read() {
    let image = build_image(&[]).unwrap();
    let fs = mount(&image).unwrap();
    assert!(read_inode(&fs, 0).is_none());
    assert!(read_inode(&fs, 1).is_some());
    assert!(read_inode(&fs, 100_000).is_none());
}

#[test]
fn reads_join_to_the_file() {
    let image = build_image(&[]).unwrap();
    let fs = mount(&image).unwrap();
    let mut files = OpenFiles::new();
    let mut user = UserMemory { code: vec![0; 4096], stack: vec![0; 4096] };
    user.code[..10].copy_from_slice(b"/hello.txt");
    assert_eq!(handle_fs_open(&mut files, &fs, &user, 3, 0x1000, 10), 0);
    let mut joined: Vec<u8> = Vec::new();
    for max in [5u64, 1, 7, 4, 9, 3] {
        // Refused requests in between do not move the position.
        assert_eq!(handle_fs_read(&mut files, &fs, &mut user, 4, 0, 0x7F_F000, max), u64::MAX);
        assert_eq!(handle_fs_read(&mut files, &fs, &mut user, 3, 0, 0x7F_F000, 0), u64::MAX);
        let n = handle_fs_read(&mut files, &fs, &mut user, 3, 0, 0x7F_F000, max);
        assert!(n <= max);
        joined.extend_from_slice(&user.stack[..n as usize]);
    }
    assert_eq!(&joined[..], b"Hello from coconutFS!\n");
    assert_eq!(handle_fs_read(&mut files, &fs, &mut user, 3, 0, 0x7F_F000, 9), 0);
}

#[test]
fn at_most_sixteen_files_are_open() {
    let image = build_image(&[]).unwrap();
    let fs = mount(&image).unwrap();
    let mut files = OpenFiles::new();
    let mut user = UserMemory { code: vec![0; 4096], stack: vec![0; 4096] };
    user.code[..10].copy_from_slice(b"/hello.txt");
    for fd in 0..16 {
        assert_eq!(handle_fs_open(&mut files, &fs, &user, 3, 0x1000, 10), fd);
    }
    assert_eq!(handle_fs_open(&mut files, &fs, &user, 3, 0x1000, 10), u64::MAX);
    assert_eq!(handle_fs_stat(&files, 3, 5), 22);
    assert_eq!(handle_fs_stat(&files, 4, 5), u64::MAX);
    assert_eq!(handle_fs_read(&mut files, &fs, &mut user, 3, 5, 0x7F_F000, 4), 4);
    assert_eq!(&user.stack[..5], b"Hell\0");
    assert_eq!(handle_fs_read(&mut files, &fs, &mut user, 3, 5, 0x1000, 4), u64::MAX);
    assert_eq!(handle_fs_close(&mut files, 3, 5), 0);
    assert_eq!(handle_fs_close(&mut files, 3, 5), u64::MAX);
    assert_eq!(handle_fs_stat(&files, 3, 16), u64::MAX);
    assert_eq!(handle_fs_open(&mut files, &fs, &user, 3, 0x1000, 10), 5);
}

fn elf(segments: &[(u32, u64, u64, u64, u64)], body: usize) -> Vec<u8> {
    let mut d = vec![0u8; 64 + 56 * segments.len() + body];
    d[..6].copy_from_slice(&[0x7f, 0x45, 0x4c, 0x46, 2, 1]);
    write_u16_le(&mut d, 18, 0x3E);
    write_u64_le(&mut d, 24, 0xFFFF_FFFF_8020_0000);
    write_u64_le(&mut d, 32, 64);
    write_u16_le(&mut d, 54, 56);
    write_u16_le(&mut d, 56, segments.len() as u16);
    for (i, s) in segments.iter().enumerate() {
        let at = 64 + 56 * i;
        write_u32_le(&mut d, at, s.0);
        write_u64_le(&mut d, at + 8, s.1);
        write_u64_le(&mut d, at + 24, s.2);
        write_u64_le(&mut d, at + 32, s.3);
        write_u64_le(&mut d, at + 40, s.4);
    }
    d
}

#[test]
fn a_kernel_file_is_parsed() {
    let mut d = elf(&[(1, 176, 0x20_0000, 4, 8), (2, 0, 0, 0, 0)], 4);
    d[176..180].copy_from_slice(&[1, 2, 3, 4]);
    let header = Elf64Header::read(&d);
    assert_eq!(header.e_machine, 0x3E);
    assert_eq!(header.e_phnum, 2);
    assert_eq!(header.e_ident[0], 0x7f);
    assert_eq!(Elf64Phdr::read(&d, 120).p_type, 2);
    let info = parse_elf64(&d).unwrap();
    assert_eq!(info.entry_point, 0xFFFF_FFFF_8020_0000);
    assert_eq!(info.segment_count, 1);
    let s = info.segments[0].unwrap();
    assert_eq!((s.file_offset, s.file_size, s.load_addr, s.mem_size), (176, 4, 0x20_0000, 8));
    let image = load_elf_segments(&d, &info).unwrap();
    assert_eq!(image.page_count, 1);
    assert_eq!(image.total_loaded, 4);
    assert_eq!(image.writes.len(), 2);
    assert_eq!(image.writes[0].addr, 0x20_0000);
    assert_eq!(image.writes[0].bytes, vec![0; 4096]);
    assert_eq!(image.writes[1].addr, 0x20_0000);
    assert_eq!(image.writes[1].bytes, [1, 2, 3, 4]);
}

#[test]
fn segments_go_to_their_own_addresses() {
    let mut d = elf(&[(1, 176, 0x10_0000, 4, 0x2001), (1, 178, 0x10_2000, 2, 1)], 4);
    d[176..180].copy_from_slice(&[1, 2, 3, 4]);
    let info = parse_elf64(&d).unwrap();
    let image = load_elf_segments(&d, &info).unwrap();
    assert_eq!(image.page_count, 3);
    assert_eq!(image.total_loaded, 6);
    let writes: Vec<(u64, Vec<u8>)> =
        image.writes.iter().map(|w| (w.addr, w.bytes.clone())).collect();
    assert_eq!(writes[0], (0x20_0000, vec![0; 3 * 4096]));
    assert_eq!(writes[1], (0x10_0000, vec![1, 2, 3, 4]));
    assert_eq!(writes[2], (0x10_2000, vec![3, 4]));
    assert_eq!(writes.len(), 3);
}

#[test]
fn bad_kernel_files_are_refused() {
    let good = elf(&[], 0);
    assert!(parse_elf64(&good).is_ok());
    assert_eq!(parse_elf64(&good[..63]).err(), Some("ELF data too small for header"));
    let with = |at: usize, v: u8| {
        let mut d = elf(&[(1, 0, 0x20_0000, 0, 0)], 0);
        d[at] = v;
        parse_elf64(&d).err()
    };
    assert_eq!(with(0, 0), Some("invalid ELF magic"));
    assert_eq!(with(4, 1), Some("not ELF64"));
    assert_eq!(with(5, 2), Some("not little-endian"));
    assert_eq!(with(18, 3), Some("not x86_64"));
    assert_eq!(with(56, 2), Some("program header out of bounds"));
    assert_eq!(with(39, 0xFF), Some("program header out of bounds"));
    let nine = [(1, 0, 0x20_0000, 0, 0); 9];
    assert_eq!(parse_elf64(&elf(&nine, 0)).err(), Some("too many PT_LOAD segments"));
    assert!(parse_elf64(&elf(&nine[..8], 0)).is_ok());
}

#[test]
fn segments_that_do_not_fit_are_not_loaded() {
    let d = elf(&[(1, 176, 0x20_0000, 400, 400)], 0);
    let info = parse_elf64(&d).unwrap();
    assert!(load_elf_segments(&d, &info).is_none());
    let d = elf(&[(1, 0, u64::MAX, 0, 8)], 0);
    let info = parse_elf64(&d).unwrap();
    assert!(load_elf_segments(&d, &info).is_none());
    let d = elf(&[(1, 0, u64::MAX - 7, 9, 1)], 0);
    let info = parse_elf64(&d).unwrap();
    assert!(load_elf_segments(&d, &info).is_none());
    let d = elf(&[(1, 0, u64::MAX - 7, 8, 1)], 0);
    let info = parse_elf64(&d).unwrap();
    assert_eq!(load_elf_segments(&d, &info).unwrap().writes[1].addr, u64::MAX - 7);
    let d = elf(&[], 0);
    let info = parse_elf64(&d).unwrap();
    assert!(load_elf_segments(&d, &info).is_none());
}

#[test]
fn the_firmware_map_is_translated() {
    assert_eq!(translate_memory_type(7), MemoryRegionType::Usable);
    assert_eq!(translate_memory_type(3), MemoryRegionType::BootloaderReclaimable);
    assert_eq!(translate_memory_type(4), MemoryRegionType::BootloaderReclaimable);
    assert_eq!(translate_memory_type(9), MemoryRegionType::AcpiReclaimable);
    assert_eq!(translate_memory_type(10), MemoryRegionType::AcpiNvs);
    assert_eq!(translate_memory_type(11), MemoryRegionType::Mmio);
    assert_eq!(translate_memory_type(0), MemoryRegionType::Reserved);
    let regions = [
        FirmwareRegion { ty: 7, phys_start: 0x10_0000, page_count: 16 },
        FirmwareRegion { ty: 9, phys_start: 0x20_0000, page_count: 1 },
    ];
    let map = build_memory_map(&regions, 5).unwrap();
    assert_eq!(map.len(), 3);
    assert_eq!(map[0].size, 0x1_0000);
    assert_eq!(map[1].region_type, MemoryRegionType::AcpiReclaimable);
    assert_eq!(map[2].region_type, MemoryRegionType::SupervisorCode);
    assert_eq!(map[2].phys_start, 0x20_0000);
    assert_eq!(map[2].size, 0x5000);
    assert_eq!(map[2].region_type.to_number(), 3);
    let huge = [FirmwareRegion { ty: 7, phys_start: 0, page_count: u64::MAX }];
    assert!(build_memory_map(&huge, 1).is_none());
}

#[test]
fn the_map_has_room_for_256_entries() {
    let regions = vec![FirmwareRegion { ty: 7, phys_start: 0, page_count: 1 }; 300];
    let map = build_memory_map(&regions, 1).unwrap();
    assert_eq!(map.len(), 256);
    let map = build_memory_map(&regions[..255], 1).unwrap();
    assert_eq!(map.len(), 256);
    assert_eq!(map[255].region_type, MemoryRegionType::SupervisorCode);
}

#[test]
fn the_boot_information_is_filled_in() {
    let b = boot_info(3, 0x6000, 0x1_8000, 0xE_0000);
    assert_eq!(b.magic, BOOT_INFO_MAGIC);
    assert_eq!(b.version, 2);
    assert_eq!(b.memory_map_count, 3);
    assert_eq!(b.memory_map_addr, 0x6000);
    assert_eq!(b.supervisor_phys_base, 0x20_0000);
    assert_eq!(b.supervisor_size, 0x1_8000);
    assert_eq!(b.acpi_rsdp_addr, 0xE_0000);
}

#[test]
fn a_file_reaches_as_far_as_its_pointers() {
    let image = build_image(&model(116 * 1024)).unwrap();
    let fs = mount(&image).unwrap();
    let mut inode: Inode = read_inode(&fs, 12).unwrap();
    inode.size = u32::MAX;
    let mut buf = [0u8; 4];
    assert_eq!(read_data(&fs, &inode, 116 * 1024 - 2, &mut buf), 2);
    assert_eq!(read_data(&fs, &inode, 268 * 1024, &mut buf), 0);
    inode.indirect = 0;
    assert_eq!(read_data(&fs, &inode, 12 * 1024, &mut buf), 0);
    assert_eq!(read_data(&fs, &inode, 12 * 1024 - 1, &mut buf), 1);
}

#[test]
fn the_boot_information_fits_its_pages() {
    assert!(BOOT_INFO_SIZE + MAX_MMAP_ENTRIES * DESCRIPTOR_SIZE <= BOOT_INFO_PAGES * 4096);
}
