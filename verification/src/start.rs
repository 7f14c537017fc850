//! Where the supervisor starts: from the boot information to a running set of tables.

use vstd::prelude::*;

use crate::channel::ChannelTable;
use crate::frame::{init as frame_init, FrameAllocator, FrameView};
use crate::fs::{OpenFile, OpenFiles};
use crate::gpu::Gpu;
use crate::highhalf::{boot_frame, boot_tables, boot_word, lemma_boot_kernel};
use crate::highhalf::{remove_identity_mapping, HighHalf, BOOT_TABLES};
use crate::kernel::kernel_ok;
use crate::mem::Memory;
use crate::pmm::{init as pmm_init, managed_chunks, map_fits, PmmSummary, MANAGED_START};
use crate::pmm::REGION_SIZE;
use crate::shard::{isolated, ShardTable};
use crate::shared::{BootInfo, MemoryRegionDescriptor, BOOT_INFO_MAGIC};
use crate::syscall::Supervisor;
use crate::vmm::slot;

verus! {

/// Why the supervisor does not start.
#[derive(Debug, Clone, Copy, PartialEq, Eq, Structural)]
pub enum StartError {
    /// The boot information does not begin with its magic number.
    BadMagic,
    /// The memory map or the place of the supervisor runs over the end of the address space.
    BadMap,
}

/// A supervisor without shards.
pub struct Started {
    pub supervisor: Supervisor,
    pub high_half: HighHalf,
    pub summary: PmmSummary,
}

/// The managed regions that lie in a memory of `words` words. Memory beyond that is not
/// mapped and stays out of use.
pub open spec fn reached_chunks(
    info: BootInfo,
    map: Seq<MemoryRegionDescriptor>,
    words: nat,
) -> Set<int> {
    managed_chunks(info, map).filter(|k: int| (k + 1) * REGION_SIZE <= 8 * words)
}

/// Start the supervisor on the boot page tables: drop the mapping of low addresses, take over
/// the free memory, and set up empty tables.
pub fn supervisor_main(
    mem: Memory,
    pml4_phys: u64,
    boot_info: &BootInfo,
    memory_map: &[MemoryRegionDescriptor],
) -> (r: Result<Started, StartError>)
    requires
        pml4_phys == BOOT_TABLES,
        boot_tables(mem@, true),
    ensures
        r is Err && r->Err_0 is BadMagic <==> boot_info.magic != BOOT_INFO_MAGIC,
        r is Err && r->Err_0 is BadMagic <==> boot_info.magic != 0x544E_5543,
        r is Err && r->Err_0 is BadMap <==> boot_info.magic == BOOT_INFO_MAGIC && !map_fits(
            *boot_info,
            memory_map@,
        ),
        r matches Ok(s) ==> {
            &&& s.supervisor.wf()
            &&& s.supervisor.table.current is None
            &&& forall|i: int|
                0 <= i < s.supervisor.table@.len() ==> (#[trigger] s.supervisor.table@[i]).vacant()
            &&& forall|i: int|
                0 <= i < s.supervisor.channels@.len() ==> !(
                #[trigger] s.supervisor.channels@[i]).active
            &&& forall|i: int|
                0 <= i < s.supervisor.files@.len() ==> #[trigger] s.supervisor.files@[i]
                    == OpenFile::spec_closed()
            &&& s.supervisor.gpu@.len() == 0
            &&& s.supervisor.frames@ == (FrameView {
                regions: Seq::empty(),
                pool: reached_chunks(*boot_info, memory_map@, mem@.len()),
            })
            &&& s.supervisor.mem@ == mem@.update(slot(BOOT_TABLES, 0), 0)
            &&& boot_tables(s.supervisor.mem@, false)
            &&& s.high_half.pml4() == BOOT_TABLES
            &&& kernel_ok(
                s.supervisor.table@,
                s.supervisor.mem@,
                s.supervisor.frames@,
                BOOT_TABLES,
            )
            &&& s.summary.sums_up(*boot_info, memory_map@)
        },
{
    let mut mem = mem;
    let ghost m0 = mem@;
    let mut high_half = HighHalf::new();
    high_half.set_supervisor_pml4(pml4_phys);
    remove_identity_mapping(&mut mem, pml4_phys);
    assert(boot_tables(mem@, false)) by {
        assert forall|p: int, i: int| 0 <= p < 7 && 0 <= i < 512 implies #[trigger] mem@[slot(
            boot_frame(p),
            i,
        )] == boot_word(false, p, i) by {
            assert(m0[slot(boot_frame(p), i)] == boot_word(true, p, i));
        }
    }
    if boot_info.magic != BOOT_INFO_MAGIC {
        return Err(StartError::BadMagic);
    }
    let (mut pmm, summary) = match pmm_init(boot_info, memory_map) {
        Some(x) => x,
        None => {
            return Err(StartError::BadMap);
        },
    };
    let words: usize = mem.words().len();
    let limit: usize = words / (REGION_SIZE / 8) as usize;
    pmm.keep_below(limit);
    assert(pmm.free() =~= reached_chunks(*boot_info, memory_map@, mem@.len())) by {
        assert(words == mem@.len());
        let all = managed_chunks(*boot_info, memory_map@);
        assert forall|k: int| #[trigger] all.contains(k) implies (k < limit) == ((k + 1)
            * REGION_SIZE <= 8 * words) by {
            assert(limit == words as int / 0x4_0000);
        }
    }
    let frames: FrameAllocator = frame_init(pmm);
    let supervisor = Supervisor {
        table: ShardTable::new(),
        channels: ChannelTable::new(),
        files: OpenFiles::new(),
        gpu: Gpu::new(),
        frames,
        mem,
    };
    proof {
        let v = supervisor.frames@;
        let t = supervisor.table@;
        assert(v.within(supervisor.mem@.len())) by {
            reveal(FrameView::within);
        }
        assert(isolated(t, supervisor.mem@, v)) by {
            reveal(isolated);
        }
        assert forall|p: int| 0 <= p < 7 implies !v.avail(#[trigger] boot_frame(p)) by {
            reveal(FrameView::avail);
            assert(boot_frame(p) as int / REGION_SIZE as int == 2);
            assert(2 * REGION_SIZE < MANAGED_START);
        }
        lemma_boot_kernel(t, supervisor.mem@, v, false);
    }
    Ok(Started { supervisor, high_half, summary })
}

} // verus!
