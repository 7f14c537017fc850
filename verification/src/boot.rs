//! The hand-over from the bootloader: the memory map and the boot information.

use vstd::prelude::*;

use crate::elf::SUPERVISOR_LOAD_ADDR;
use crate::shared::{BootInfo, MemoryRegionDescriptor, MemoryRegionType, BOOT_INFO_MAGIC};
use crate::shared::BOOT_INFO_VERSION;

verus! {

/// Number of entries of the memory map that are kept.
pub const MAX_MMAP_ENTRIES: usize = 256;

/// Number of pages for the boot information and the memory map behind it.
pub const BOOT_INFO_PAGES: usize = 2;

/// Size of the boot information in memory, and of an entry of the memory map.
pub const BOOT_INFO_SIZE: usize = 48;

pub const DESCRIPTOR_SIZE: usize = 24;

/// Memory types of the firmware.
pub const BOOT_SERVICES_CODE: u32 = 3;

pub const BOOT_SERVICES_DATA: u32 = 4;

pub const CONVENTIONAL: u32 = 7;

pub const ACPI_RECLAIM: u32 = 9;

pub const ACPI_NON_VOLATILE: u32 = 10;

pub const MMIO: u32 = 11;

pub const MMIO_PORT_SPACE: u32 = 12;

/// An entry of the firmware's memory map.
#[derive(Debug, Clone, Copy, PartialEq, Eq, Structural)]
pub struct FirmwareRegion {
    pub ty: u32,
    pub phys_start: u64,
    pub page_count: u64,
}

/// How memory of a firmware type is used from now on.
pub open spec fn region_type(ty: u32) -> MemoryRegionType {
    if ty == CONVENTIONAL {
        MemoryRegionType::Usable
    } else if ty == BOOT_SERVICES_CODE || ty == BOOT_SERVICES_DATA {
        MemoryRegionType::BootloaderReclaimable
    } else if ty == ACPI_RECLAIM {
        MemoryRegionType::AcpiReclaimable
    } else if ty == ACPI_NON_VOLATILE {
        MemoryRegionType::AcpiNvs
    } else if ty == MMIO || ty == MMIO_PORT_SPACE {
        MemoryRegionType::Mmio
    } else {
        MemoryRegionType::Reserved
    }
}

/// How memory of a firmware type is used from now on.
pub fn translate_memory_type(ty: u32) -> (r: MemoryRegionType)
    ensures
        r == region_type(ty),
{
    if ty == CONVENTIONAL {
        MemoryRegionType::Usable
    } else if ty == BOOT_SERVICES_CODE || ty == BOOT_SERVICES_DATA {
        MemoryRegionType::BootloaderReclaimable
    } else if ty == ACPI_RECLAIM {
        MemoryRegionType::AcpiReclaimable
    } else if ty == ACPI_NON_VOLATILE {
        MemoryRegionType::AcpiNvs
    } else if ty == MMIO || ty == MMIO_PORT_SPACE {
        MemoryRegionType::Mmio
    } else {
        MemoryRegionType::Reserved
    }
}

/// An entry of the memory map.
pub open spec fn translated(r: FirmwareRegion) -> MemoryRegionDescriptor {
    MemoryRegionDescriptor {
        phys_start: r.phys_start,
        size: (r.page_count * 4096) as u64,
        region_type: region_type(r.ty),
    }
}

/// The entries that are kept, the lesser of all and [`MAX_MMAP_ENTRIES`].
pub open spec fn kept(n: int) -> int {
    if n <= MAX_MMAP_ENTRIES {
        n
    } else {
        MAX_MMAP_ENTRIES as int
    }
}

/// The entry for the supervisor.
pub open spec fn supervisor_entry(page_count: u64) -> MemoryRegionDescriptor {
    MemoryRegionDescriptor {
        phys_start: SUPERVISOR_LOAD_ADDR,
        size: (page_count * 4096) as u64,
        region_type: MemoryRegionType::SupervisorCode,
    }
}

/// The memory map that is handed over: the firmware's entries as far as there is room, and
/// an entry for the supervisor if there still is.
pub open spec fn memory_map(regions: Seq<FirmwareRegion>, page_count: u64) -> Seq<
    MemoryRegionDescriptor,
> {
    let n = kept(regions.len() as int);
    let map = Seq::new(n as nat, |i: int| translated(regions[i]));
    if n < MAX_MMAP_ENTRIES {
        map.push(supervisor_entry(page_count))
    } else {
        map
    }
}

/// Whether the sizes of the regions are 64-bit numbers.
pub open spec fn sizes_fit(regions: Seq<FirmwareRegion>, page_count: u64) -> bool {
    &&& forall|i: int|
        0 <= i < kept(regions.len() as int) ==> (#[trigger] regions[i]).page_count * 4096
            <= u64::MAX
    &&& page_count * 4096 <= u64::MAX
}

/// Build the memory map. `page_count` is the size of the supervisor in pages. There is no
/// result where a size is not a 64-bit number.
pub fn build_memory_map(regions: &[FirmwareRegion], page_count: u64) -> (r: Option<
    Vec<MemoryRegionDescriptor>,
>)
    ensures
        r is Some <==> sizes_fit(regions@, page_count),
        r matches Some(map) ==> map@ == memory_map(regions@, page_count),
{
    if page_count > u64::MAX / 4096 {
        return None;
    }
    let mut map: Vec<MemoryRegionDescriptor> = Vec::new();
    let mut i: usize = 0;
    while i < regions.len() && i < MAX_MMAP_ENTRIES
        invariant
            i <= kept(regions@.len() as int),
            map@ == Seq::new(i as nat, |k: int| translated(regions@[k])),
            forall|k: int| 0 <= k < i ==> (#[trigger] regions@[k]).page_count * 4096 <= u64::MAX,
        decreases regions@.len() - i,
    {
        let region = regions[i];
        if region.page_count > u64::MAX / 4096 {
            return None;
        }
        map.push(
            MemoryRegionDescriptor {
                phys_start: region.phys_start,
                size: region.page_count * 4096,
                region_type: translate_memory_type(region.ty),
            },
        );
        i += 1;
        assert(map@ =~= Seq::new(i as nat, |k: int| translated(regions@[k])));
    }
    if i < MAX_MMAP_ENTRIES {
        map.push(
            MemoryRegionDescriptor {
                phys_start: SUPERVISOR_LOAD_ADDR,
                size: page_count * 4096,
                region_type: MemoryRegionType::SupervisorCode,
            },
        );
    }
    assert(map@ =~= memory_map(regions@, page_count));
    Some(map)
}

/// The boot information for a memory map of `map_count` entries at `map_addr`.
pub fn boot_info(map_count: u32, map_addr: u64, total_loaded: u64, acpi_rsdp_addr: u64) -> (b: BootInfo)
    ensures
        b == (BootInfo {
            magic: BOOT_INFO_MAGIC,
            version: BOOT_INFO_VERSION,
            memory_map_count: map_count,
            memory_map_addr: map_addr,
            supervisor_phys_base: SUPERVISOR_LOAD_ADDR,
            supervisor_size: total_loaded,
            acpi_rsdp_addr,
        }),
        b.magic == 0x544E_5543,
        b.version == 2,
        b.supervisor_phys_base == 0x20_0000,
{
    BootInfo {
        magic: BOOT_INFO_MAGIC,
        version: BOOT_INFO_VERSION,
        memory_map_count: map_count,
        memory_map_addr: map_addr,
        supervisor_phys_base: SUPERVISOR_LOAD_ADDR,
        supervisor_size: total_loaded,
        acpi_rsdp_addr,
    }
}

/// The boot information and a full memory map fit into the pages for them.
pub proof fn law_boot_info_fits(regions: Seq<FirmwareRegion>, page_count: u64)
    ensures
        memory_map(regions, page_count).len() <= MAX_MMAP_ENTRIES,
        BOOT_INFO_SIZE + memory_map(regions, page_count).len() * DESCRIPTOR_SIZE <= BOOT_INFO_PAGES
            * 4096,
{
}

/// No memory is called usable that the firmware does not call free or its own boot-time
/// memory.
pub proof fn law_usable_is_free(ty: u32)
    ensures
        region_type(ty) == MemoryRegionType::Usable || region_type(ty)
            == MemoryRegionType::BootloaderReclaimable <==> ty == CONVENTIONAL || ty
            == BOOT_SERVICES_CODE || ty == BOOT_SERVICES_DATA,
{
}

/// What memory is used for, by the numbers of the firmware: 7 is free, 3 and 4 were the
/// firmware's at boot, 9 and 10 hold firmware tables, 11 and 12 are devices, and all else is
/// reserved.
pub proof fn law_types_by_number(ty: u32)
    ensures
        region_type(ty) == MemoryRegionType::Usable <==> ty == 7,
        region_type(ty) == MemoryRegionType::BootloaderReclaimable <==> ty == 3 || ty == 4,
        region_type(ty) == MemoryRegionType::AcpiReclaimable <==> ty == 9,
        region_type(ty) == MemoryRegionType::AcpiNvs <==> ty == 10,
        region_type(ty) == MemoryRegionType::Mmio <==> ty == 11 || ty == 12,
        region_type(ty) != MemoryRegionType::SupervisorCode,
{
}

/// The map keeps the firmware's entries, the first 256 of them, in their order, with sizes of
/// 4096 bytes a page. Where there is room for one more, the last is the supervisor's, from
/// 0x20_0000 on. A byte lies in an entry exactly where it lies in the firmware's.
pub proof fn law_map_keeps_entries(
    regions: Seq<FirmwareRegion>,
    page_count: u64,
    i: int,
    a: int,
)
    requires
        sizes_fit(regions, page_count),
        0 <= i < regions.len(),
        i < 256,
    ensures
        ({
            let map = memory_map(regions, page_count);
            let n = regions.len() as int;
            &&& map.len() == (if n < 256 {
                n + 1
            } else {
                256
            })
            &&& map[i].phys_start <= a < map[i].phys_start + map[i].size <==> regions[i].phys_start
                <= a < regions[i].phys_start + 4096 * regions[i].page_count
            &&& map[i].phys_start == regions[i].phys_start
            &&& map[i].region_type == region_type(regions[i].ty)
            &&& n < 256 ==> map[n].region_type == MemoryRegionType::SupervisorCode
                && map[n].phys_start == 0x20_0000 && map[n].size == 4096 * page_count
        }),
{
    assert(regions[i].page_count * 4096 <= u64::MAX);
}

} // verus!
