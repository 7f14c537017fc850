use coconut::aslr::{place, prng_next, prng_seed, random_vaddr, ASLR_END, ASLR_START};
use coconut::bytes::{read_u32_le, write_u32_le};
use coconut::capability::{check, grant_to_shard};
use coconut::gpu::{clear_partitions, create_partitions, find_bar, handle_dma, handle_gpu_pledge};
use coconut::gpu::{handle_gpu_unveil, init as gpu_init, unveil_allows, Gpu, GpuInit};
use coconut::hal::count_pages;
use coconut::highhalf::{build_boot_tables, BOOT_TABLES};
use coconut::mem::Memory;
use coconut::pci::BarInfo;
use coconut::shard::{Priority, ShardState, ShardTable, MAX_SHARDS};
use coconut::shard_gpu::{dma_receiver, dma_sender, self_test, BUFFERS_END, DMA_OFFSET};
use coconut::shared::{BootInfo, MemoryRegionDescriptor, MemoryRegionType};
use coconut::shared::{BOOT_INFO_MAGIC, BOOT_INFO_VERSION, CAP_CHANNEL, CAP_GPU_DMA};
use coconut::shared::{RIGHT_CHANNEL_RECV, RIGHT_CHANNEL_SEND, RIGHT_GPU_DMA_WRITE};
use coconut::start::supervisor_main;
use coconut::syscall::Supervisor;
use coconut::vmm::{translate, Leaf, PTE_PRESENT};
use coconut::vram::{matmul_4x4, CommandRing, GpuConfig, VramAllocator};
use coconut::window::{MmioWindow, MMIO_FLAGS, MMIO_VIRT_BASE};

const MIB: u64 = 0x10_0000;

fn supervisor() -> Supervisor {
    let mut mem = Memory::new(vec![0u64; (16 * MIB / 8) as usize]);
    let pml4 = build_boot_tables(&mut mem);
    let info = BootInfo {
        magic: BOOT_INFO_MAGIC,
        version: BOOT_INFO_VERSION,
        memory_map_count: 1,
        memory_map_addr: 0x5000,
        supervisor_phys_base: 0x20_0000,
        supervisor_size: 0x1_8000,
        acpi_rsdp_addr: 0,
    };
    let map = [MemoryRegionDescriptor {
        phys_start: 0,
        size: 16 * MIB,
        region_type: MemoryRegionType::Usable,
    }];
    match supervisor_main(mem, pml4, &info, &map) {
        Ok(s) => s.supervisor,
        Err(_) => panic!("the supervisor does not start"),
    }
}

fn bar(phys_base: u64, size: u64, prefetchable: bool) -> BarInfo {
    BarInfo { phys_base, size, is_memory: true, is_64bit: false, prefetchable }
}

fn bars() -> [BarInfo; 6] {
    let none = BarInfo::empty();
    [bar(0xFD00_0000, 16 * MIB, true), none, bar(0xFEBF_0000, 4096, false), none, none, none]
}

#[test]
fn the_generator_never_gives_zero() {
    let mut p = prng_seed(0);
    let mut x = 1u64;
    for _ in 0..1000 {
        x ^= x << 13;
        x ^= x >> 7;
        x ^= x << 17;
        assert_ne!(x, 0);
        assert_eq!(prng_next(&mut p), x);
    }
}

#[test]
fn device_memory_is_placed_apart() {
    for seed in 0..50 {
        let mut p = prng_seed(seed);
        let v = random_vaddr(&mut p, 8 * MIB);
        assert!(v >= ASLR_START && v + 8 * MIB <= ASLR_END + 0x20_0000);
        assert_eq!(v % 4096, 0);
        let (vram, mmio) = place(&mut p, 8 * MIB, 4096).unwrap();
        assert!(vram + 8 * MIB <= mmio || mmio + 4096 <= vram);
    }
}

#[test]
fn registers_are_placed_again_until_they_are_apart() {
    let size = 0x1000_0000;
    let mut again = 0;
    for seed in 0..50 {
        let mut q = prng_seed(seed);
        let vram = random_vaddr(&mut q, size);
        let mut mmio = random_vaddr(&mut q, size);
        while mmio < vram + size && vram < mmio + size {
            mmio = random_vaddr(&mut q, size);
            again += 1;
        }
        let mut p = prng_seed(seed);
        assert_eq!(place(&mut p, size, size), Some((vram, mmio)));
        assert_eq!(prng_next(&mut p), prng_next(&mut q));
    }
    assert!(again > 0);
}

#[test]
fn ranges_that_always_meet_are_not_placed() {
    let size = ASLR_END - ASLR_START - 4096;
    let mut p = prng_seed(7);
    assert_eq!(place(&mut p, size, size), None);
    assert_eq!(prng_next(&mut p), prng_next(&mut prng_seed(7)));
}

#[test]
fn video_memory_is_split_in_two() {
    let g = create_partitions(16 * MIB);
    assert_eq!(g.partition_count(), 2);
    let (a, b) = (g.partition(0), g.partition(1));
    assert_eq!((a.vram_offset, a.vram_size), (0, 8 * MIB));
    assert_eq!((b.vram_offset, b.vram_size), (8 * MIB, 8 * MIB));
    assert_eq!((a.cu_count, a.id, b.id), (4, 0, 1));
    assert_eq!(a.owner_shard, None);
    assert_eq!(Gpu::new().partition_count(), 0);
}

#[test]
fn bars_are_told_apart_by_prefetching() {
    assert_eq!(find_bar(&bars(), false).unwrap().phys_base, 0xFEBF_0000);
    assert_eq!(find_bar(&bars(), true).unwrap().phys_base, 0xFD00_0000);
    assert!(find_bar(&[BarInfo::empty(); 6], true).is_none());
    assert_eq!(count_pages(4097), 2);
    assert_eq!(count_pages(0), 0);
}

#[test]
fn pledge_and_unveil_only_narrow() {
    let mut g = create_partitions(8192);
    g.set_owner(0, 2);
    let mut t = ShardTable::new();
    t.current = Some(2);
    t.shards[2].gpu_pledge = u64::MAX;
    assert_eq!(handle_gpu_pledge(&mut t, 3), 0);
    assert_eq!(handle_gpu_pledge(&mut t, 6), 0);
    assert_eq!(t.shards[2].gpu_pledge, 2);
    assert!(unveil_allows(&t, 2, 0, u64::MAX));
    assert_eq!(handle_gpu_unveil(&g, &mut t, 4000, 97), u64::MAX);
    assert_eq!(handle_gpu_unveil(&g, &mut t, 100, 0), u64::MAX);
    assert_eq!(handle_gpu_unveil(&g, &mut t, u64::MAX, 2), u64::MAX);
    assert_eq!(handle_gpu_unveil(&g, &mut t, 100, 200), 0);
    assert!(unveil_allows(&t, 2, 100, 200));
    assert!(!unveil_allows(&t, 2, 99, 10));
    assert!(!unveil_allows(&t, 2, 100, 201));
    assert_eq!(handle_gpu_unveil(&g, &mut t, 100, 100), u64::MAX);
    t.current = Some(3);
    assert_eq!(handle_gpu_unveil(&g, &mut t, 0, 1), u64::MAX);
}

#[test]
fn copies_stay_inside_the_partitions() {
    let mut g = create_partitions(8192);
    g.set_owner(0, 0);
    g.set_owner(1, 1);
    let mut t = ShardTable::new();
    t.current = Some(0);
    grant_to_shard(&mut t, 0, CAP_GPU_DMA, 1, RIGHT_GPU_DMA_WRITE);
    let mut vram = vec![0u8; 8192];
    vram[..4].copy_from_slice(&[1, 2, 3, 4]);
    let pack = |dst: u64, len: u64| (dst << 32) | len;
    assert_eq!(handle_dma(&g, &t, &mut vram, 1, 0, pack(4092, 4)), 0);
    assert_eq!(&vram[8188..], &[1, 2, 3, 4]);
    assert_eq!(handle_dma(&g, &t, &mut vram, 1, 0, pack(4093, 4)), u64::MAX);
    assert_eq!(handle_dma(&g, &t, &mut vram, 1, 4093, pack(0, 4)), u64::MAX);
    assert_eq!(handle_dma(&g, &t, &mut vram, 0, 0, pack(64, 4)), u64::MAX);
    assert_eq!(handle_dma(&g, &t, &mut vram, 2, 0, pack(0, 4)), u64::MAX);
    assert_eq!(handle_dma(&g, &t, &mut vram, 1, 0, pack(0, 0)), u64::MAX);
    t.current = Some(1);
    assert_eq!(handle_dma(&g, &t, &mut vram, 0, 0, pack(0, 4)), u64::MAX);
}

#[test]
fn each_partition_gets_a_shard() {
    let mut s = supervisor();
    let mut window = MmioWindow::new();
    let mut prng = prng_seed(12345);
    let r = gpu_init(
        &mut s.gpu,
        &mut s.table,
        &mut s.channels,
        &mut s.frames,
        &mut s.mem,
        &mut window,
        BOOT_TABLES,
        &bars(),
        &mut prng,
        &[0x90; 100],
        &[0x5_0000; MAX_SHARDS],
    );
    let (vram_virt, shards) = match r {
        GpuInit::Ready { vram_virt, shards } => (vram_virt, shards),
        _ => panic!("no room"),
    };
    assert_eq!(vram_virt, MMIO_VIRT_BASE);
    assert_eq!(shards, [0, 1]);
    assert_eq!(
        translate(&s.mem, BOOT_TABLES, MMIO_VIRT_BASE + 0x1000),
        Leaf::Page4K(0xFD00_1000 | MMIO_FLAGS)
    );
    for i in 0..2 {
        let d = s.table.shards[i];
        assert_eq!(d.state, ShardState::Ready);
        assert_eq!(d.priority, Priority::High);
        assert_eq!(s.gpu.partition(i).owner_shard, Some(i));
        // The configuration page says where the partition is mapped.
        let frame = match translate(&s.mem, d.pml4_phys, 0x4000) {
            Leaf::Page4K(e) => e & 0x000F_FFFF_FFFF_F000,
            _ => panic!("no configuration page"),
        };
        let page: Vec<u8> = (0..4096).map(|k| s.mem.read_byte(frame + k)).collect();
        let config = GpuConfig::read(&page).unwrap();
        assert_eq!(config.partition_id, i as u32);
        assert_eq!(config.vram_size, 8 * MIB);
        assert_eq!(config.cu_count, 4);
        let flags = 0x8000_0000_0000_001E | PTE_PRESENT;
        let base = 0xFD00_0000 + i as u64 * 8 * MIB;
        assert_eq!(translate(&s.mem, d.pml4_phys, config.vram_vaddr), Leaf::Page4K(base | flags));
        let last = 8 * MIB - 4096;
        assert_eq!(
            translate(&s.mem, d.pml4_phys, config.vram_vaddr + last),
            Leaf::Page4K((base + last) | flags)
        );
        assert_eq!(
            translate(&s.mem, d.pml4_phys, config.mmio_vaddr),
            Leaf::Page4K(0xFEBF_0000 | flags)
        );
    }
    assert!(check(&s.table, 0, CAP_CHANNEL, 0, RIGHT_CHANNEL_SEND));
    assert!(!check(&s.table, 0, CAP_CHANNEL, 0, RIGHT_CHANNEL_RECV));
    assert!(check(&s.table, 1, CAP_CHANNEL, 0, RIGHT_CHANNEL_RECV));
    assert!(check(&s.table, 0, CAP_GPU_DMA, 1, RIGHT_GPU_DMA_WRITE));
}

#[test]
fn without_a_device_nothing_is_made() {
    let mut s = supervisor();
    let mut window = MmioWindow::new();
    let mut prng = prng_seed(1);
    let none = BarInfo::empty();
    let mut run = |bars: [BarInfo; 6], s: &mut Supervisor| {
        gpu_init(
            &mut s.gpu,
            &mut s.table,
            &mut s.channels,
            &mut s.frames,
            &mut s.mem,
            &mut window,
            BOOT_TABLES,
            &bars,
            &mut prng,
            &[0x90],
            &[0; MAX_SHARDS],
        )
    };
    assert!(matches!(run([none; 6], &mut s), GpuInit::NoMmioBar));
    let mut only_mmio = [none; 6];
    only_mmio[2] = bars()[2];
    assert!(matches!(run(only_mmio, &mut s), GpuInit::NoVramBar));
    for i in 1..MAX_SHARDS {
        s.table.shards[i].state = ShardState::Exited;
    }
    assert!(matches!(run(bars(), &mut s), GpuInit::NoRoom));
    assert_eq!(s.table.shards[0].state, ShardState::Free);
}

#[test]
fn device_memory_may_end_with_the_address_space() {
    let mut s = supervisor();
    let none = BarInfo::empty();
    let vram_base = 0xFFFF_FFFF_FF00_0000;
    let bars = [bar(vram_base, 16 * MIB, true), none, bar(u64::MAX - 4095, 4096, false), none, none, none];
    let r = gpu_init(
        &mut s.gpu,
        &mut s.table,
        &mut s.channels,
        &mut s.frames,
        &mut s.mem,
        &mut MmioWindow::new(),
        BOOT_TABLES,
        &bars,
        &mut prng_seed(1),
        &[0x90],
        &[0; MAX_SHARDS],
    );
    let vram_virt = match r {
        GpuInit::Ready { vram_virt, .. } => vram_virt,
        _ => panic!("no shards"),
    };
    let addr = 0x000F_FFFF_FFFF_F000;
    let last = 16 * MIB - 4096;
    assert_eq!(
        translate(&s.mem, BOOT_TABLES, vram_virt + last),
        Leaf::Page4K(addr | MMIO_FLAGS)
    );
    let d = s.table.shards[1];
    assert_eq!((d.saved_kernel_rsp, d.vram_unveil_offset), (0, 0));
    let frame = match translate(&s.mem, d.pml4_phys, 0x4000) {
        Leaf::Page4K(e) => e & addr,
        _ => panic!("no configuration page"),
    };
    let page: Vec<u8> = (0..4096).map(|k| s.mem.read_byte(frame + k)).collect();
    let config = GpuConfig::read(&page).unwrap();
    let flags = 0x8000_0000_0000_001E | PTE_PRESENT;
    assert_eq!(translate(&s.mem, d.pml4_phys, config.mmio_vaddr), Leaf::Page4K(addr | flags));
    let last = 8 * MIB - 4096;
    assert_eq!(
        translate(&s.mem, d.pml4_phys, config.vram_vaddr + last),
        Leaf::Page4K(addr | flags)
    );
}

#[test]
fn the_configuration_page_needs_its_magic() {
    assert!(GpuConfig::read(&[0; 4096]).is_none());
}

#[test]
fn video_memory_is_allocated_in_lines() {
    let mut vram = vec![0xAAu8; 0x4000];
    let mut a = VramAllocator::init(&mut vram, 0x4000);
    assert_eq!(a.allocate(&mut vram, 1, 100), Some(0x1000));
    assert_eq!(a.allocate(&mut vram, 2, 64), Some(0x1080));
    assert_eq!(a.alloc_count(&vram), 2);
    assert_eq!(a.allocate(&mut vram, 2, 0x3000), None);
    assert!(a.free(&mut vram, 0x1000));
    assert_eq!(&vram[0x1000..0x1064], &[0u8; 100]);
    assert_eq!(vram[0x1064], 0xAA);
    assert!(!a.free(&mut vram, 0x1040));
    a.zero_page(&mut vram);
    assert!(vram[..0x1000].iter().all(|b| *b == 0));
}

#[test]
fn the_allocation_table_has_255_entries() {
    let mut vram = vec![0u8; 0x1_0000];
    let mut a = VramAllocator::init(&mut vram, 0x1_0000);
    for i in 0..255 {
        assert_eq!(a.allocate(&mut vram, 1, 1), Some(0x1000 + 64 * i));
    }
    assert_eq!(a.allocate(&mut vram, 1, 1), None);
}

#[test]
fn commands_go_through_the_ring() {
    let mut vram = vec![0u8; 0x3000];
    let mut ring = CommandRing::init(&mut vram, 0x1000);
    assert!(ring.verify(&vram));
    ring.submit_matmul(&mut vram, 0x2000, 0x2040, 0x2080, 4);
    assert_eq!(ring.read_command(&vram), (0x2000, 0x2040, 0x2080, 4));
    assert_eq!(read_u32_le(&vram, 0x1004), 32);
    assert_eq!(read_u32_le(&vram, 0x1014), 0);
    ring.complete(&mut vram);
    assert_eq!(read_u32_le(&vram, 0x1008), 32);
    assert_eq!(read_u32_le(&vram, 0x1014), 1);
    write_u32_le(&mut vram, 0x1000, 0);
    assert!(!ring.verify(&vram));
}

#[test]
fn matrices_are_multiplied() {
    let mut vram = vec![0u8; 192];
    let a: [u32; 16] = [1, 2, 3, 4, 5, 6, 7, 8, 9, 10, 11, 12, 13, 14, 15, 16];
    let b: [u32; 16] = [1, 0, 2, 0, 0, 1, 0, 2, 3, 0, 1, 0, 0, 3, 0, u32::MAX];
    for i in 0..16 {
        write_u32_le(&mut vram, 4 * i, a[i]);
        write_u32_le(&mut vram, 64 + 4 * i, b[i]);
    }
    matmul_4x4(&mut vram, 0, 64, 128);
    for i in 0..4 {
        for j in 0..4 {
            let mut sum = 0u32;
            for k in 0..4 {
                sum = sum.wrapping_add(a[4 * i + k].wrapping_mul(b[4 * k + j]));
            }
            assert_eq!(read_u32_le(&vram, 128 + 4 * (4 * i + j)), sum);
        }
    }
}

#[test]
fn the_self_test_clears_up() {
    let mut vram = vec![0x77u8; 0x4000];
    assert!(self_test(&mut vram, 0x4000, 0xB0C5));
    assert!(vram[..BUFFERS_END as usize].iter().all(|b| *b == 0));
    assert!(vram[BUFFERS_END as usize..].iter().all(|b| *b == 0x77));
    assert!(!self_test(&mut vram, 0x4000, 0));
    assert!(!self_test(&mut vram, 0x4000, 0xFFFF));
    assert!(!self_test(&mut vram, BUFFERS_END - 1, 0xB0C5));
    assert!(self_test(&mut vram, BUFFERS_END, 0xB0C5));
}

#[test]
fn the_video_memory_of_an_exited_shard_is_cleared() {
    let mut g = create_partitions(200);
    g.set_owner(0, 3);
    g.set_owner(1, 5);
    let mut t = ShardTable::new();
    t.shards[3].state = ShardState::Running;
    t.shards[5].state = ShardState::Exited;
    let mut vram = vec![0x77u8; 210];
    clear_partitions(&mut g, &t, &mut vram);
    assert!(vram[..100].iter().all(|b| *b == 0x77));
    assert!(vram[100..200].iter().all(|b| *b == 0));
    assert!(vram[200..].iter().all(|b| *b == 0x77));
    assert_eq!(g.partition(0).owner_shard, Some(3));
    assert_eq!(g.partition(1).owner_shard, None);
    assert_eq!(g.partition(1).vram_offset, 100);
}

#[test]
fn a_failed_self_test_leaves_the_pattern_or_the_allocations() {
    let mut vram = vec![0x77u8; 0x4000];
    assert!(!self_test(&mut vram, 0x4000, 0));
    assert_eq!(read_u32_le(&vram, 0), 0xDEAD_BEEF);
    assert!(vram[4..].iter().all(|b| *b == 0x77));
    assert!(!self_test(&mut vram, BUFFERS_END - 1, 0xB0C5));
    assert_eq!(read_u32_le(&vram, 4), 3);
    assert_eq!(read_u32_le(&vram, 8), 0x2080);
    assert_eq!(read_u32_le(&vram, 12), BUFFERS_END - 1);
    assert!(vram[0x1000..].iter().all(|b| *b == 0x77));
}

#[test]
fn test_data_arrive_in_the_other_partition() {
    let size = 2 * MIB;
    let mut g = create_partitions(2 * size);
    g.set_owner(0, 0);
    g.set_owner(1, 1);
    let mut t = ShardTable::new();
    t.current = Some(0);
    grant_to_shard(&mut t, 0, CAP_GPU_DMA, 1, RIGHT_GPU_DMA_WRITE);
    let mut vram = vec![0u8; 2 * size as usize];
    let request = dma_sender(&mut vram[..size as usize]);
    assert_eq!(request, (DMA_OFFSET << 32) | 64);
    assert!(!dma_receiver(&vram[size as usize..]));
    assert_eq!(handle_dma(&g, &t, &mut vram, 1, DMA_OFFSET, request), 0);
    assert!(dma_receiver(&vram[size as usize..]));
}
