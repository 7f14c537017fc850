use coconut::channel::init as channel_init;
use coconut::ext2::init as mount;
use coconut::gpu::create_partitions;
use coconut::highhalf::{build_boot_tables, BOOT_TABLES};
use coconut::mem::Memory;
use coconut::mkfs::build_image;
use coconut::shard::{create, Priority, ShardState};
use coconut::shared::{BootInfo, MemoryRegionDescriptor, MemoryRegionType};
use coconut::shared::{BOOT_INFO_MAGIC, BOOT_INFO_VERSION, CAP_CHANNEL, CAP_GPU_DMA};
use coconut::shared::{PLEDGE_SERIAL, RIGHT_CHANNEL_RECV, RIGHT_CHANNEL_SEND};
use coconut::shared::{SYS_CAP_GRANT, SYS_CAP_INSPECT, SYS_CAP_RESTRICT, SYS_CAP_REVOKE};
use coconut::shared::{SYS_CHANNEL_RECV, SYS_CHANNEL_SEND, SYS_EXIT, SYS_FS_CLOSE, SYS_FS_OPEN};
use coconut::shared::{SYS_FS_READ, SYS_FS_STAT, SYS_GPU_DMA, SYS_GPU_PLEDGE, SYS_GPU_UNVEIL};
use coconut::shared::{SYS_MMAP, SYS_SERIAL_WRITE, SYS_YIELD};
use coconut::start::supervisor_main;
use coconut::syscall::{finish_recv, handle_serial_write, init as syscall_init, pledge_allows};
use coconut::syscall::{syscall_dispatch, MsrWrite, Outcome, Supervisor};
use coconut::user::{validate_user_read_buf, validate_user_write_buf, UserMemory};
use coconut::capability::grant_to_shard;

const MIB: u64 = 0x10_0000;
const STACK: u64 = 0x7F_F000;

fn supervisor() -> Supervisor {
    let mut mem = Memory::new(vec![0u64; (12 * MIB / 8) as usize]);
    let pml4 = build_boot_tables(&mut mem);
    let info = BootInfo {
        magic: BOOT_INFO_MAGIC,
        version: BOOT_INFO_VERSION,
        memory_map_count: 1,
        memory_map_addr: 0x5000,
        supervisor_phys_base: 0x20_0000,
        supervisor_size: 0x1_8000,
        acpi_rsdp_addr: 0,
    };
    let map = [MemoryRegionDescriptor {
        phys_start: 0,
        size: 12 * MIB,
        region_type: MemoryRegionType::Usable,
    }];
    let mut s = match supervisor_main(mem, pml4, &info, &map) {
        Ok(s) => s.supervisor,
        Err(_) => panic!("the supervisor does not start"),
    };
    for _ in 0..2 {
        create(&mut s.table, &mut s.frames, &mut s.mem, BOOT_TABLES, &[1], Priority::Normal, 0);
    }
    s.table.current = Some(0);
    s
}

fn user() -> UserMemory {
    UserMemory { code: vec![0; 4096], stack: vec![0; 4096] }
}

fn call(s: &mut Supervisor, u: &mut UserMemory, nr: u64, args: [u64; 3]) -> Outcome {
    let mut vram: [u8; 0] = [];
    syscall_dispatch(s, u, &mut vram, None, nr, args[0], args[1], args[2])
}

fn value(o: Outcome) -> u64 {
    match o {
        Outcome::Value(v) => v,
        _ => panic!("the call gives no number"),
    }
}

#[test]
fn buffers_lie_in_the_code_or_the_stack() {
    assert!(validate_user_read_buf(0x1000, 4096));
    assert!(validate_user_read_buf(0x1FFF, 1));
    assert!(!validate_user_read_buf(0x1FFF, 2));
    assert!(!validate_user_read_buf(0x1000, 0));
    assert!(!validate_user_read_buf(0x1000, 4097));
    assert!(!validate_user_read_buf(u64::MAX, 2));
    assert!(validate_user_read_buf(STACK, 4096));
    assert!(validate_user_write_buf(STACK + 8, 8));
    assert!(!validate_user_write_buf(0x1000, 8));
    assert!(!validate_user_write_buf(0x80_0000, 1));
}

#[test]
fn user_memory_is_copied_both_ways() {
    let mut u = user();
    u.write(STACK + 10, &[1, 2, 3, 4], 3);
    assert_eq!(u.stack[10..14], [1, 2, 3, 0]);
    assert_eq!(u.read(STACK + 11, 2), [2, 3]);
}

#[test]
fn system_calls_are_entered_through_four_registers() {
    let w = syscall_init(0xD00, 0xFFFF_FFFF_8020_1000);
    assert_eq!(w[0], MsrWrite { msr: 0xC000_0080, value: 0xD01 });
    assert_eq!(w[1].msr, 0xC000_0081);
    assert_eq!(w[1].value >> 32, 0x0010_0008);
    assert_eq!(w[2], MsrWrite { msr: 0xC000_0082, value: 0xFFFF_FFFF_8020_1000 });
    assert_eq!(w[3], MsrWrite { msr: 0xC000_0084, value: 0x300 });
}

#[test]
fn serial_output_comes_from_the_code_page() {
    let mut u = user();
    u.code[0..3].copy_from_slice(b"hi\n");
    assert_eq!(handle_serial_write(&u, 0x1000, 3), Some(b"hi\r\n".to_vec()));
    assert_eq!(handle_serial_write(&u, STACK, 3), None);
    assert_eq!(handle_serial_write(&u, 0x1000, 0), Some(vec![]));
    assert_eq!(handle_serial_write(&u, 0x1FFE, 3), None);
    let mut s = supervisor();
    match call(&mut s, &mut u, SYS_SERIAL_WRITE, [0x1000, 2, 0]) {
        Outcome::Print(v) => assert_eq!(v, b"hi"),
        _ => panic!("nothing is printed"),
    }
}

#[test]
fn exit_and_yield() {
    let mut s = supervisor();
    let mut u = user();
    s.table.shards[0].state = ShardState::Running;
    assert!(matches!(call(&mut s, &mut u, SYS_YIELD, [0; 3]), Outcome::Yielded));
    assert_eq!(s.table.shards[0].state, ShardState::Ready);
    assert!(matches!(call(&mut s, &mut u, SYS_EXIT, [7, 0, 0]), Outcome::Exited));
    assert_eq!(s.table.shards[0].state, ShardState::Exited);
    assert_eq!(s.table.shards[0].exit_code, 7);
    assert!(s.table.current.is_none());
}

#[test]
fn an_unknown_call_is_refused() {
    let mut s = supervisor();
    let mut u = user();
    assert_eq!(value(call(&mut s, &mut u, 999, [0; 3])), u64::MAX);
}

#[test]
fn capability_calls_work_on_the_callers_table() {
    let mut s = supervisor();
    let mut u = user();
    grant_to_shard(&mut s.table, 0, CAP_CHANNEL, 5, 7);
    let packed = (1 << 48) | (5 << 16);
    assert_eq!(value(call(&mut s, &mut u, SYS_CAP_INSPECT, [0; 3])), packed | 7);
    assert_eq!(value(call(&mut s, &mut u, SYS_CAP_GRANT, [0, 1, 3])), 0);
    assert_eq!(s.table.shards[1].caps[0].rights, 3);
    assert_eq!(value(call(&mut s, &mut u, SYS_CAP_RESTRICT, [0, 4, 0])), 0);
    assert_eq!(value(call(&mut s, &mut u, SYS_CAP_INSPECT, [0; 3])), packed | 4);
    assert_eq!(value(call(&mut s, &mut u, SYS_CAP_REVOKE, [0; 3])), 0);
    assert_eq!(value(call(&mut s, &mut u, SYS_CAP_INSPECT, [0; 3])), u64::MAX);
}

#[test]
fn channels_need_a_capability() {
    let mut s = supervisor();
    let mut u = user();
    u.stack[0..3].copy_from_slice(b"DON");
    channel_init(&mut s.channels, 0, 0, 1);
    assert_eq!(value(call(&mut s, &mut u, SYS_CHANNEL_SEND, [0, STACK, 3])), u64::MAX);
    grant_to_shard(&mut s.table, 0, CAP_CHANNEL, 0, RIGHT_CHANNEL_SEND);
    assert_eq!(value(call(&mut s, &mut u, SYS_CHANNEL_SEND, [0, STACK, 3])), 0);
    assert_eq!(value(call(&mut s, &mut u, SYS_CHANNEL_RECV, [0, STACK, 3])), u64::MAX);
    s.table.current = Some(1);
    grant_to_shard(&mut s.table, 1, CAP_CHANNEL, 0, RIGHT_CHANNEL_RECV);
    let mut v = user();
    assert_eq!(value(call(&mut s, &mut v, SYS_CHANNEL_RECV, [0, STACK + 100, 8])), 3);
    assert_eq!(&v.stack[100..104], b"DON\0");
}

#[test]
fn a_message_that_is_too_long_is_cut() {
    let mut s = supervisor();
    let mut u = user();
    u.stack[0..5].copy_from_slice(b"HELLO");
    channel_init(&mut s.channels, 0, 0, 1);
    grant_to_shard(&mut s.table, 0, CAP_CHANNEL, 0, RIGHT_CHANNEL_SEND);
    grant_to_shard(&mut s.table, 1, CAP_CHANNEL, 0, RIGHT_CHANNEL_RECV);
    assert_eq!(value(call(&mut s, &mut u, SYS_CHANNEL_SEND, [0, STACK, 5])), 0);
    s.table.current = Some(1);
    let mut v = user();
    assert_eq!(value(call(&mut s, &mut v, SYS_CHANNEL_RECV, [0, STACK, 2])), 2);
    assert_eq!(&v.stack[..3], b"HE\0");
    assert!(matches!(call(&mut s, &mut v, SYS_CHANNEL_RECV, [0, STACK, 8]), Outcome::Blocked));
}

#[test]
fn a_blocked_receiver_gets_its_message_later() {
    let mut s = supervisor();
    let mut u = user();
    channel_init(&mut s.channels, 0, 0, 1);
    grant_to_shard(&mut s.table, 0, CAP_CHANNEL, 0, RIGHT_CHANNEL_RECV);
    grant_to_shard(&mut s.table, 1, CAP_CHANNEL, 0, RIGHT_CHANNEL_SEND);
    assert!(matches!(
        call(&mut s, &mut u, SYS_CHANNEL_RECV, [0, STACK, 8]),
        Outcome::Blocked
    ));
    assert_eq!(s.table.shards[0].state, ShardState::Blocked);
    s.table.current = Some(1);
    let mut v = user();
    v.stack[0] = 0x41;
    assert_eq!(value(call(&mut s, &mut v, SYS_CHANNEL_SEND, [0, STACK, 1])), 0);
    assert_eq!(s.table.shards[0].state, ShardState::Ready);
    assert_eq!(finish_recv(&mut s.channels, &mut u, 0, 0, STACK, 8), 1);
    assert_eq!(u.stack[0], 0x41);
}

#[test]
fn files_are_opened_read_and_closed() {
    let image = build_image(b"weights").unwrap();
    let fs = mount(&image).unwrap();
    let mut s = supervisor();
    let mut u = user();
    u.code[0..10].copy_from_slice(b"/hello.txt");
    let mut vram: [u8; 0] = [];
    let mut fs_call = |s: &mut Supervisor, u: &mut UserMemory, nr: u64, a: [u64; 3]| {
        value(syscall_dispatch(s, u, &mut vram, Some(&fs), nr, a[0], a[1], a[2]))
    };
    assert_eq!(fs_call(&mut s, &mut u, SYS_FS_OPEN, [0x1000, 9, 0]), u64::MAX);
    assert_eq!(fs_call(&mut s, &mut u, SYS_FS_OPEN, [0x1000, 10, 0]), 0);
    assert_eq!(fs_call(&mut s, &mut u, SYS_FS_STAT, [0; 3]), 22);
    assert_eq!(fs_call(&mut s, &mut u, SYS_FS_READ, [0, STACK, 5]), 5);
    assert_eq!(fs_call(&mut s, &mut u, SYS_FS_READ, [0, STACK + 5, 100]), 17);
    assert_eq!(&u.stack[0..22], b"Hello from coconutFS!\n");
    assert_eq!(fs_call(&mut s, &mut u, SYS_FS_READ, [0, STACK, 100]), 0);
    // Another shard cannot use the descriptor.
    s.table.current = Some(1);
    assert_eq!(fs_call(&mut s, &mut u, SYS_FS_STAT, [0; 3]), u64::MAX);
    assert_eq!(fs_call(&mut s, &mut u, SYS_FS_CLOSE, [0; 3]), u64::MAX);
    s.table.current = Some(0);
    assert_eq!(fs_call(&mut s, &mut u, SYS_FS_CLOSE, [0; 3]), 0);
    assert_eq!(fs_call(&mut s, &mut u, SYS_FS_READ, [0, STACK, 1]), u64::MAX);
    assert_eq!(fs_call(&mut s, &mut u, SYS_FS_OPEN, [0x1000, 257, 0]), u64::MAX);
}

#[test]
fn without_a_filesystem_file_calls_fail() {
    let mut s = supervisor();
    let mut u = user();
    u.code[0] = 0x2F;
    assert_eq!(value(call(&mut s, &mut u, SYS_FS_OPEN, [0x1000, 1, 0])), u64::MAX);
}

#[test]
fn a_pledge_cannot_be_taken_back() {
    assert!(pledge_allows(u64::MAX, SYS_MMAP));
    assert!(!pledge_allows(PLEDGE_SERIAL, SYS_MMAP));
    assert!(pledge_allows(0, SYS_EXIT));
    let mut s = supervisor();
    let mut u = user();
    u.code[0] = 0x41;
    assert_eq!(value(call(&mut s, &mut u, SYS_GPU_PLEDGE, [PLEDGE_SERIAL, 0, 0])), 0);
    assert!(matches!(
        call(&mut s, &mut u, SYS_SERIAL_WRITE, [0x1000, 1, 0]),
        Outcome::Print(_)
    ));
    assert_eq!(value(call(&mut s, &mut u, SYS_CAP_INSPECT, [0; 3])), u64::MAX);
    assert_eq!(value(call(&mut s, &mut u, SYS_GPU_PLEDGE, [u64::MAX, 0, 0])), 0);
    assert_eq!(s.table.shards[0].gpu_pledge, PLEDGE_SERIAL);
    assert_eq!(value(call(&mut s, &mut u, SYS_GPU_PLEDGE, [0, 0, 0])), 0);
    assert_eq!(value(call(&mut s, &mut u, SYS_SERIAL_WRITE, [0x1000, 1, 0])), u64::MAX);
    assert!(matches!(call(&mut s, &mut u, SYS_EXIT, [0; 3]), Outcome::Exited));
}

#[test]
fn memory_is_mapped_on_demand() {
    let mut s = supervisor();
    let mut u = user();
    assert_eq!(value(call(&mut s, &mut u, SYS_MMAP, [0x10_0000, 1, 0])), 0);
    assert_eq!(value(call(&mut s, &mut u, SYS_MMAP, [0x10_0000, 1, 0])), u64::MAX);
    assert_eq!(s.table.shards[0].frame_count, 4);
}

#[test]
fn a_copy_between_partitions_needs_everything() {
    let mut s = supervisor();
    let mut u = user();
    s.gpu = create_partitions(8192);
    s.gpu.set_owner(0, 0);
    s.gpu.set_owner(1, 1);
    let mut vram = vec![0u8; 8192];
    vram[16] = 0x55;
    let packed = (32 << 32) | 4;
    let mut dma = |s: &mut Supervisor, vram: &mut Vec<u8>| {
        value(syscall_dispatch(s, &mut u, vram, None, SYS_GPU_DMA, 1, 16, packed))
    };
    assert_eq!(dma(&mut s, &mut vram), u64::MAX);
    assert_eq!(vram[4096 + 32], 0);
    grant_to_shard(&mut s.table, 0, CAP_GPU_DMA, 1, 1);
    assert_eq!(dma(&mut s, &mut vram), 0);
    assert_eq!(vram[4096 + 32], 0x55);
    assert_eq!(vram[16], 0x55);
    // Once a part is unveiled, the rest is out of bounds.
    let mut none: [u8; 0] = [];
    let mut v = user();
    let mut unveil = |s: &mut Supervisor, offset: u64, size: u64| {
        value(syscall_dispatch(s, &mut v, &mut none, None, SYS_GPU_UNVEIL, offset, size, 0))
    };
    assert_eq!(unveil(&mut s, 0, 4097), u64::MAX);
    assert_eq!(unveil(&mut s, 0, 0), u64::MAX);
    assert_eq!(unveil(&mut s, 64, 4032), 0);
    assert_eq!(unveil(&mut s, 0, 64), u64::MAX);
    assert_eq!(dma(&mut s, &mut vram), u64::MAX);
}
