use coconut::capability::{cap_type_name, check, clear_shard, format_channel_rights, grant_copy};
use coconut::capability::{grant_to_shard, inspect, restrict, revoke};
use coconut::channel::{init as channel_init, recv, recv_resumed, send, ChannelTable, Recv};
use coconut::frame::has_frames;
use coconut::highhalf::{build_boot_tables, BOOT_TABLES};
use coconut::idt::{fault_name, handle_fault, handle_timer, FaultAction};
use coconut::mem::Memory;
use coconut::mmap::handle_mmap;
use coconut::scheduler::{destroy_exited, handle_sys_yield, run_step, setup_initial_kernel_stack};
use coconut::scheduler::{timer_preempt, Scheduler, Step, STACK_WORDS};
use coconut::shard::{create, current_shard, destroy, find_free, handle_sys_exit};
use coconut::shard::{CapEntry, Priority, ShardDescriptor, ShardState, ShardTable, MAX_SHARDS};
use coconut::shared::{BootInfo, MemoryRegionDescriptor, MemoryRegionType};
use coconut::shared::{BOOT_INFO_MAGIC, BOOT_INFO_VERSION, CAP_CHANNEL, CAP_SHARD};
use coconut::shared::{RIGHT_CHANNEL_GRANT, RIGHT_CHANNEL_RECV, RIGHT_CHANNEL_SEND};
use coconut::start::supervisor_main;
use coconut::syscall::Supervisor;
use coconut::vmm::{translate, Leaf, PTE_NO_EXECUTE, PTE_PRESENT, PTE_USER, PTE_WRITABLE};

const MIB: u64 = 0x10_0000;

fn supervisor() -> Supervisor {
    let mut mem = Memory::new(vec![0u64; (12 * MIB / 8) as usize]);
    let pml4 = build_boot_tables(&mut mem);
    let info = BootInfo {
        magic: BOOT_INFO_MAGIC,
        version: BOOT_INFO_VERSION,
        memory_map_count: 1,
        memory_map_addr: 0x5000,
        supervisor_phys_base: 0x20_0000,
        supervisor_size: 0x1_8000,
        acpi_rsdp_addr: 0,
    };
    let map = [MemoryRegionDescriptor {
        phys_start: 0,
        size: 12 * MIB,
        region_type: MemoryRegionType::Usable,
    }];
    match supervisor_main(mem, pml4, &info, &map) {
        Ok(s) => s.supervisor,
        Err(_) => panic!("the supervisor does not start"),
    }
}

fn new_shard(s: &mut Supervisor, code: &[u8], priority: Priority) -> Option<usize> {
    create(&mut s.table, &mut s.frames, &mut s.mem, BOOT_TABLES, code, priority, 0x5_0000)
}

#[test]
fn a_shard_without_code_has_an_empty_page() {
    let mut s = supervisor();
    new_shard(&mut s, &[], Priority::Normal).unwrap();
    let d = s.table.shards[0];
    assert_eq!(d.frame_count, 3);
    assert_eq!(d.saved_kernel_rsp, 0);
    assert_eq!(
        translate(&s.mem, d.pml4_phys, 0x1000),
        Leaf::Page4K(d.allocated_frames[1] | PTE_USER | PTE_PRESENT)
    );
    assert_eq!(translate(&s.mem, d.pml4_phys, 0x2000), Leaf::Unmapped);
    assert!((0..4096).all(|k| s.mem.read_byte(d.allocated_frames[1] + k) == 0));
}

#[test]
fn user_mode_reaches_a_shards_pages_and_no_others() {
    let addr = 0x000F_FFFF_FFFF_F000;
    let mut s = supervisor();
    new_shard(&mut s, &[0x90; 10], Priority::Normal).unwrap();
    s.table.current = Some(0);
    assert_eq!(handle_mmap(&mut s.table, &mut s.frames, &mut s.mem, 0x10_0000, 2), 0);
    let d = s.table.shards[0];
    for virt in [0x1000u64, 0x10_0000, 0x10_1000] {
        let mut table = d.pml4_phys;
        for shift in [39, 30, 21] {
            let e = s.mem.read(table + 8 * ((virt >> shift) & 511));
            assert_eq!(e & 7, PTE_PRESENT | PTE_WRITABLE | PTE_USER);
            table = e & addr;
        }
        let e = s.mem.read(table + 8 * ((virt >> 12) & 511));
        assert_ne!(e & PTE_USER, 0);
        let count = d.frame_count;
        assert!(d.allocated_frames[1..count].contains(&(e & addr)));
    }
    // The supervisor's pages are mapped, and are not for user mode.
    match translate(&s.mem, d.pml4_phys, 0xFFFF_8000_0000_0000) {
        Leaf::Page2M(e) => assert_eq!(e & PTE_USER, 0),
        _ => panic!("no direct map"),
    }
}

#[test]
fn a_new_shard_sees_its_code_and_its_stack() {
    let mut s = supervisor();
    let code = [0x90u8; 5000];
    let id = new_shard(&mut s, &code, Priority::Normal).unwrap();
    assert_eq!(id, 0);
    let d = s.table.shards[0];
    assert_eq!(d.state, ShardState::Ready);
    assert_eq!(d.priority, Priority::Normal);
    assert_eq!(d.frame_count, 4);
    assert_eq!(d.pml4_phys, d.allocated_frames[0]);
    let (page1, page2, stack) =
        (d.allocated_frames[1], d.allocated_frames[2], d.allocated_frames[3]);
    let root = d.pml4_phys;
    assert_eq!(translate(&s.mem, root, 0x1000), Leaf::Page4K(page1 | PTE_USER | PTE_PRESENT));
    assert_eq!(translate(&s.mem, root, 0x2000), Leaf::Page4K(page2 | PTE_USER | PTE_PRESENT));
    assert_eq!(
        translate(&s.mem, root, 0x7F_F000),
        Leaf::Page4K(stack | PTE_USER | PTE_WRITABLE | PTE_NO_EXECUTE | PTE_PRESENT)
    );
    assert_eq!(translate(&s.mem, root, 0), Leaf::Unmapped);
    assert_eq!(translate(&s.mem, root, 0x3000), Leaf::Unmapped);
    assert_eq!(s.mem.read_byte(page2 + 903), 0x90);
    assert_eq!(s.mem.read_byte(page2 + 904), 0);
    // The supervisor's half is shared.
    assert_eq!(s.mem.read(root + 8 * 511), s.mem.read(BOOT_TABLES + 8 * 511));
    assert_eq!(s.mem.read(root + 8 * 256), s.mem.read(BOOT_TABLES + 8 * 256));
}

#[test]
fn shards_share_no_frame() {
    let mut s = supervisor();
    let a = new_shard(&mut s, &[1; 4096], Priority::Normal).unwrap();
    let b = new_shard(&mut s, &[2; 4096], Priority::Normal).unwrap();
    let (da, db) = (s.table.shards[a], s.table.shards[b]);
    for i in 0..da.frame_count {
        for j in 0..db.frame_count {
            assert_ne!(da.allocated_frames[i], db.allocated_frames[j]);
        }
    }
}

#[test]
fn there_is_room_for_eight_shards() {
    let mut s = supervisor();
    for i in 0..MAX_SHARDS {
        assert_eq!(find_free(&s.table, 0), i);
        assert_eq!(new_shard(&mut s, &[0xF4], Priority::Low), Some(i));
    }
    assert_eq!(new_shard(&mut s, &[0xF4], Priority::Low), None);
}

#[test]
fn a_shard_with_too_much_code_is_not_made() {
    let mut s = supervisor();
    assert_eq!(new_shard(&mut s, &[0; 31 * 4096], Priority::Low), None);
    assert_eq!(new_shard(&mut s, &[0; 30 * 4096], Priority::Low), Some(0));
}

#[test]
fn a_destroyed_shard_leaves_zeros_and_free_frames() {
    let mut s = supervisor();
    let before = count(&s);
    let id = new_shard(&mut s, &[0xCC; 4096], Priority::Normal).unwrap();
    assert_eq!(count(&s), before - 7);
    let page = s.table.shards[id].allocated_frames[1];
    assert_eq!(s.mem.read(page), 0xCCCC_CCCC_CCCC_CCCC);
    s.table.current = Some(id);
    handle_sys_exit(&mut s.table, 3);
    assert_eq!(s.table.shards[id].state, ShardState::Exited);
    assert_eq!(s.table.shards[id].exit_code, 3);
    assert!(current_shard(&s.table).is_none());
    destroy(&mut s.table, &mut s.frames, &mut s.mem, id);
    assert_eq!(s.table.shards[id].state, ShardState::Destroyed);
    assert_eq!(s.table.shards[id].frame_count, 0);
    assert_eq!(s.mem.read(page), 0);
    assert_eq!(count(&s), before);
}

/// Number of frames that are left.
fn count(s: &Supervisor) -> u64 {
    let mut n = 0;
    while has_frames(&s.frames, n + 1) {
        n += 1;
    }
    n
}

#[test]
fn capabilities_are_granted_checked_and_revoked() {
    let mut t = ShardTable::new();
    let h = grant_to_shard(&mut t, 2, CAP_CHANNEL, 7, 3);
    assert_eq!(h, Some(0));
    assert!(check(&t, 2, CAP_CHANNEL, 7, RIGHT_CHANNEL_SEND));
    assert!(!check(&t, 2, CAP_CHANNEL, 8, RIGHT_CHANNEL_SEND));
    assert!(!check(&t, 2, CAP_SHARD, 7, RIGHT_CHANNEL_SEND));
    assert!(!check(&t, 2, CAP_CHANNEL, 7, RIGHT_CHANNEL_GRANT));
    assert!(!check(&t, 1, CAP_CHANNEL, 7, RIGHT_CHANNEL_SEND));
    assert_eq!(inspect(&t, 2, 0), (1 << 48) | (7 << 16) | 3);
    assert_eq!(inspect(&t, 2, 1), u64::MAX);
    assert_eq!(revoke(&mut t, 2, 0), 0);
    assert_eq!(revoke(&mut t, 2, 0), u64::MAX);
    assert_eq!(inspect(&t, 2, 0), u64::MAX);
    assert_eq!(revoke(&mut t, 2, 16), u64::MAX);
    assert_eq!(revoke(&mut t, 8, 0), u64::MAX);
}

#[test]
fn restricting_only_takes_rights_away() {
    let mut t = ShardTable::new();
    grant_to_shard(&mut t, 0, CAP_CHANNEL, 0, 5);
    assert_eq!(restrict(&mut t, 0, 0, 3), 0);
    assert_eq!(t.shards[0].caps[0].rights, 1);
    assert_eq!(restrict(&mut t, 0, 0, 7), 0);
    assert_eq!(t.shards[0].caps[0].rights, 1);
    assert_eq!(restrict(&mut t, 0, 1, 7), u64::MAX);
}

#[test]
fn a_granted_copy_has_no_more_rights() {
    let mut t = ShardTable::new();
    let all = RIGHT_CHANNEL_SEND | RIGHT_CHANNEL_RECV | RIGHT_CHANNEL_GRANT;
    grant_to_shard(&mut t, 0, CAP_CHANNEL, 4, RIGHT_CHANNEL_SEND | RIGHT_CHANNEL_GRANT);
    assert_eq!(grant_copy(&mut t, 0, 0, 1, all & !RIGHT_CHANNEL_GRANT), 0);
    assert_eq!(
        t.shards[1].caps[0],
        CapEntry {
            valid: true,
            cap_type: CAP_CHANNEL,
            resource_id: 4,
            rights: RIGHT_CHANNEL_SEND,
        }
    );
    // Without the right to grant there is no copy.
    assert_eq!(grant_copy(&mut t, 1, 0, 2, all), u64::MAX);
    assert_eq!(grant_copy(&mut t, 0, 9, 2, all), u64::MAX);
    assert_eq!(grant_copy(&mut t, 0, 0, 8, all), u64::MAX);
    clear_shard(&mut t, 1);
    assert_eq!(inspect(&t, 1, 0), u64::MAX);
}

#[test]
fn a_shard_holds_sixteen_capabilities() {
    let mut t = ShardTable::new();
    for i in 0..16 {
        assert_eq!(grant_to_shard(&mut t, 0, CAP_SHARD, i as u32, 0), Some(i));
    }
    assert_eq!(grant_to_shard(&mut t, 0, CAP_SHARD, 16, 0), None);
}

#[test]
fn capabilities_have_names() {
    assert_eq!(cap_type_name(1), "CHANNEL");
    assert_eq!(cap_type_name(99), "UNKNOWN");
    assert_eq!(format_channel_rights(CAP_CHANNEL, 7), "SEND|RECV|GRANT");
    assert_eq!(format_channel_rights(CAP_CHANNEL, 2), "RECV");
    assert_eq!(format_channel_rights(CAP_CHANNEL, 0), "NONE");
    assert_eq!(format_channel_rights(CAP_SHARD, 1), "ALL");
}

#[test]
fn a_message_arrives_in_one_direction() {
    let mut c = ChannelTable::new();
    let mut t = ShardTable::new();
    channel_init(&mut c, 1, 4, 5);
    assert_eq!(send(&mut c, &mut t, 1, 4, b"ping"), 0);
    match recv(&mut c, &mut t, 1, 5, 64) {
        Recv::Message(m) => assert_eq!(m, b"ping"),
        _ => panic!("no message"),
    }
    assert!(matches!(recv(&mut c, &mut t, 1, 4, 64), Recv::Blocked));
}

#[test]
fn a_long_message_is_cut() {
    let mut c = ChannelTable::new();
    let mut t = ShardTable::new();
    channel_init(&mut c, 0, 0, 1);
    assert_eq!(send(&mut c, &mut t, 0, 0, b"abcdef"), 0);
    match recv(&mut c, &mut t, 0, 1, 3) {
        Recv::Message(m) => assert_eq!(m, b"abc"),
        _ => panic!("no message"),
    }
}

#[test]
fn sending_fails_on_bad_arguments() {
    let mut c = ChannelTable::new();
    let mut t = ShardTable::new();
    assert_eq!(send(&mut c, &mut t, 0, 0, b"x"), u64::MAX);
    channel_init(&mut c, 0, 0, 1);
    assert_eq!(send(&mut c, &mut t, 0, 2, b"x"), u64::MAX);
    assert_eq!(send(&mut c, &mut t, 4, 0, b"x"), u64::MAX);
    assert_eq!(send(&mut c, &mut t, 0, 0, b""), u64::MAX);
    assert_eq!(send(&mut c, &mut t, 0, 0, &[0; 257]), u64::MAX);
    assert_eq!(send(&mut c, &mut t, 0, 0, &[0; 256]), 0);
    assert!(matches!(recv(&mut c, &mut t, 0, 2, 8), Recv::Failed));
    assert!(matches!(recv(&mut c, &mut t, 0, 1, 0), Recv::Failed));
}

#[test]
fn an_endpoint_outside_the_table_receives_but_cannot_wait() {
    let mut c = ChannelTable::new();
    let mut t = ShardTable::new();
    channel_init(&mut c, 3, 0, 100);
    assert!(matches!(recv(&mut c, &mut t, 3, 101, 8), Recv::Failed));
    assert!(matches!(recv(&mut c, &mut t, 3, 100, 8), Recv::Failed));
    assert_eq!(send(&mut c, &mut t, 3, 0, b"hi"), 0);
    match recv(&mut c, &mut t, 3, 100, 8) {
        Recv::Message(m) => assert_eq!(m, b"hi"),
        _ => panic!("no message"),
    }
}

#[test]
fn a_blocked_receiver_wakes_up() {
    let mut c = ChannelTable::new();
    let mut t = ShardTable::new();
    channel_init(&mut c, 2, 0, 1);
    t.shards[1].state = ShardState::Running;
    assert!(matches!(recv(&mut c, &mut t, 2, 1, 8), Recv::Blocked));
    assert_eq!(t.shards[1].state, ShardState::Blocked);
    assert_eq!(t.shards[1].blocked_on_channel, Some(2));
    assert_eq!(send(&mut c, &mut t, 2, 0, b"go"), 0);
    assert_eq!(t.shards[1].state, ShardState::Ready);
    assert_eq!(t.shards[1].blocked_on_channel, None);
    assert_eq!(recv_resumed(&mut c, 2, 1, 8), Some(b"go".to_vec()));
    assert_eq!(recv_resumed(&mut c, 2, 1, 8), None);
}

fn ready(t: &mut ShardTable, id: usize, priority: Priority) {
    t.shards[id] = ShardDescriptor::empty();
    t.shards[id].state = ShardState::Ready;
    t.shards[id].priority = priority;
    t.shards[id].kernel_stack_top = 0x1_0000;
}

fn next(sched: &mut Scheduler, t: &mut ShardTable) -> usize {
    match run_step(sched, t) {
        Step::Switch { id, .. } => {
            handle_sys_yield(t);
            id
        }
        _ => panic!("no shard is ready"),
    }
}

#[test]
fn shards_of_one_priority_take_turns() {
    let mut t = ShardTable::new();
    let mut sched = Scheduler::new();
    for id in [1, 3, 6] {
        ready(&mut t, id, Priority::Normal);
    }
    let first = next(&mut sched, &mut t);
    let second = next(&mut sched, &mut t);
    let third = next(&mut sched, &mut t);
    assert_eq!((first, second, third), (1, 3, 6));
    assert_eq!(next(&mut sched, &mut t), 1);
}

#[test]
fn a_higher_priority_comes_first() {
    let mut t = ShardTable::new();
    let mut sched = Scheduler::new();
    ready(&mut t, 1, Priority::Low);
    ready(&mut t, 2, Priority::High);
    assert_eq!(next(&mut sched, &mut t), 2);
    assert_eq!(next(&mut sched, &mut t), 2);
    t.shards[2].state = ShardState::Blocked;
    assert_eq!(next(&mut sched, &mut t), 1);
}

#[test]
fn the_scheduler_tells_the_end_from_a_deadlock() {
    let mut t = ShardTable::new();
    let mut sched = Scheduler::new();
    assert_eq!(run_step(&mut sched, &mut t), Step::Finished);
    t.shards[0].state = ShardState::Blocked;
    assert_eq!(run_step(&mut sched, &mut t), Step::Deadlock);
    t.shards[0].state = ShardState::Exited;
    assert_eq!(run_step(&mut sched, &mut t), Step::Finished);
}

#[test]
fn the_timer_takes_the_processor_away() {
    let mut t = ShardTable::new();
    let mut sched = Scheduler::new();
    ready(&mut t, 0, Priority::Normal);
    assert!(matches!(run_step(&mut sched, &mut t), Step::Switch { id: 0, .. }));
    assert_eq!(t.shards[0].state, ShardState::Running);
    let mut ticks = 41;
    timer_preempt(&mut t, &mut ticks);
    assert_eq!(ticks, 42);
    assert_eq!(t.shards[0].state, ShardState::Ready);

    run_step(&mut sched, &mut t);
    assert!(!handle_timer(&mut t, &mut ticks, 0x08));
    assert_eq!(t.shards[0].state, ShardState::Running);
    assert!(handle_timer(&mut t, &mut ticks, 0x23));
    assert_eq!(t.shards[0].state, ShardState::Ready);
    assert_eq!(ticks, 44);
}

#[test]
fn the_first_switch_enters_the_shard() {
    let mut t = ShardTable::new();
    ready(&mut t, 0, Priority::Normal);
    let mut stack = [9u64; STACK_WORDS];
    setup_initial_kernel_stack(&mut t, 0, &mut stack, 0xABCD);
    assert_eq!(t.shards[0].saved_kernel_rsp, 0x1_0000 - 56);
    assert_eq!(stack[511], 0xABCD);
    assert_eq!(&stack[505..511], &[0; 6]);
    assert_eq!(stack[504], 9);
}

#[test]
fn exited_shards_are_swept() {
    let mut s = supervisor();
    let before = count(&s);
    for _ in 0..3 {
        new_shard(&mut s, &[1], Priority::Normal);
    }
    s.table.shards[0].state = ShardState::Exited;
    s.table.shards[2].state = ShardState::Exited;
    destroy_exited(&mut s.table, &mut s.gpu, &mut [], &mut s.frames, &mut s.mem);
    assert_eq!(s.table.shards[0].state, ShardState::Destroyed);
    assert_eq!(s.table.shards[1].state, ShardState::Ready);
    assert_eq!(s.table.shards[2].state, ShardState::Destroyed);
    assert_eq!(count(&s), before - 7);
}

#[test]
fn a_fault_in_user_mode_kills_only_the_shard() {
    let mut t = ShardTable::new();
    ready(&mut t, 0, Priority::Normal);
    ready(&mut t, 1, Priority::Normal);
    t.current = Some(1);
    assert_eq!(handle_fault(&mut t, 14, 0x23), FaultAction::ShardKilled);
    assert_eq!(t.shards[1].state, ShardState::Exited);
    assert_eq!(t.shards[1].exit_code, u64::MAX);
    assert_eq!(t.shards[0].state, ShardState::Ready);
    assert!(t.current.is_none());
    assert_eq!(handle_fault(&mut t, 14, 0x08), FaultAction::Halt);
    assert_eq!(handle_fault(&mut t, 8, 0x23), FaultAction::Halt);
    t.current = Some(0);
    assert_eq!(handle_fault(&mut t, 13, 0x23), FaultAction::ShardKilled);
}

#[test]
fn faults_have_names() {
    assert_eq!(fault_name(0), "Divide Error");
    assert_eq!(fault_name(8), "Double Fault");
}

#[test]
fn mapping_memory_leaves_no_gaps() {
    let mut s = supervisor();
    let id = new_shard(&mut s, &[1], Priority::Normal).unwrap();
    s.table.current = Some(id);
    let root = s.table.shards[id].pml4_phys;
    let start = 0x10_0000;
    assert_eq!(handle_mmap(&mut s.table, &mut s.frames, &mut s.mem, start + 0x1000, 1), u64::MAX);
    assert_eq!(handle_mmap(&mut s.table, &mut s.frames, &mut s.mem, start, 0), u64::MAX);
    assert_eq!(handle_mmap(&mut s.table, &mut s.frames, &mut s.mem, start, 2), 0);
    assert_eq!(handle_mmap(&mut s.table, &mut s.frames, &mut s.mem, start, 1), u64::MAX);
    assert_eq!(handle_mmap(&mut s.table, &mut s.frames, &mut s.mem, start + 0x2000, 1), 0);
    let d = s.table.shards[id];
    assert_eq!(d.frame_count, 6);
    let flags = PTE_USER | PTE_WRITABLE | PTE_NO_EXECUTE | PTE_PRESENT;
    for k in 0..3 {
        assert_eq!(
            translate(&s.mem, root, start + 0x1000 * k),
            Leaf::Page4K(d.allocated_frames[3 + k as usize] | flags)
        );
    }
    assert_eq!(translate(&s.mem, root, start + 0x3000), Leaf::Unmapped);
}

/// Every entry of the supervisor's half, and the words of another shard's pages.
fn snapshot(s: &Supervisor, other: usize) -> Vec<u64> {
    let mut words: Vec<u64> = (256..512).map(|i| s.mem.read(BOOT_TABLES + 8 * i)).collect();
    let d = s.table.shards[other];
    for f in 0..d.frame_count {
        words.extend((0..512).map(|i| s.mem.read(d.allocated_frames[f] + 8 * i)));
    }
    words
}

#[test]
fn growing_and_ending_leave_all_others_alone() {
    let mut s = supervisor();
    let a = new_shard(&mut s, &[0x11; 4096], Priority::Normal).unwrap();
    let b = new_shard(&mut s, &[0x22; 4096], Priority::Normal).unwrap();
    let before = snapshot(&s, b);
    s.table.current = Some(a);
    assert_eq!(handle_mmap(&mut s.table, &mut s.frames, &mut s.mem, 0x10_0000, 4), 0);
    assert_eq!(snapshot(&s, b), before);
    handle_sys_exit(&mut s.table, 0);
    destroy(&mut s.table, &mut s.frames, &mut s.mem, a);
    assert_eq!(snapshot(&s, b), before);
}

#[test]
fn yielding_does_not_wake_a_blocked_shard() {
    let mut t = ShardTable::new();
    ready(&mut t, 0, Priority::Normal);
    t.shards[0].state = ShardState::Blocked;
    t.current = Some(0);
    handle_sys_yield(&mut t);
    assert_eq!(t.shards[0].state, ShardState::Blocked);
}
