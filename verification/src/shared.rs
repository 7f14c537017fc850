//! Boot handoff types, system call numbers, capability types and rights.

use vstd::prelude::*;

verus! {

/// Magic number of a [`BootInfo`]: "CNUT" in ASCII.
pub const BOOT_INFO_MAGIC: u64 = 0x544E5543;

/// Version of the boot handoff protocol.
pub const BOOT_INFO_VERSION: u32 = 2;

/// Boot handoff structure passed from the bootloader to the supervisor.
#[derive(Debug, Clone, Copy, PartialEq, Eq, Structural)]
pub struct BootInfo {
    /// Must equal [`BOOT_INFO_MAGIC`].
    pub magic: u64,
    /// Protocol version.
    pub version: u32,
    /// Number of entries in the memory map.
    pub memory_map_count: u32,
    /// Physical address of the memory map.
    pub memory_map_addr: u64,
    /// Physical base address at which the supervisor was loaded.
    pub supervisor_phys_base: u64,
    /// Size of the supervisor image in bytes (all loaded segments).
    pub supervisor_size: u64,
    /// Physical address of the ACPI root pointer, zero where none was found.
    pub acpi_rsdp_addr: u64,
}

/// Describes a contiguous physical memory region.
#[derive(Debug, Clone, Copy, PartialEq, Eq, Structural)]
pub struct MemoryRegionDescriptor {
    /// Physical start address (page-aligned).
    pub phys_start: u64,
    /// Size in bytes.
    pub size: u64,
    /// Type/usage of this region.
    pub region_type: MemoryRegionType,
}

/// Classification of physical memory regions.
#[derive(Debug, Clone, Copy, PartialEq, Eq, Structural)]
pub enum MemoryRegionType {
    /// Free RAM, available for allocation.
    Usable,
    /// Reserved by firmware or hardware.
    Reserved,
    /// ACPI tables that can be reclaimed after parsing.
    AcpiReclaimable,
    /// Contains the supervisor code and data.
    SupervisorCode,
    /// Memory used by the bootloader, reclaimable.
    BootloaderReclaimable,
    /// ACPI NVS, must be preserved.
    AcpiNvs,
    /// Memory-mapped I/O.
    Mmio,
}

impl MemoryRegionType {
    /// The number of this type in the handoff protocol.
    pub open spec fn number(self) -> u32 {
        match self {
            MemoryRegionType::Usable => 0,
            MemoryRegionType::Reserved => 1,
            MemoryRegionType::AcpiReclaimable => 2,
            MemoryRegionType::SupervisorCode => 3,
            MemoryRegionType::BootloaderReclaimable => 4,
            MemoryRegionType::AcpiNvs => 5,
            MemoryRegionType::Mmio => 6,
        }
    }

    /// The number that stands for this type in the memory map handed over at boot.
    pub fn to_number(self) -> (n: u32)
        ensures
            n == self.number(),
    {
        match self {
            MemoryRegionType::Usable => 0,
            MemoryRegionType::Reserved => 1,
            MemoryRegionType::AcpiReclaimable => 2,
            MemoryRegionType::SupervisorCode => 3,
            MemoryRegionType::BootloaderReclaimable => 4,
            MemoryRegionType::AcpiNvs => 5,
            MemoryRegionType::Mmio => 6,
        }
    }
}

// System call numbers.
pub const SYS_EXIT: u64 = 0;
pub const SYS_SERIAL_WRITE: u64 = 1;
pub const SYS_CAP_GRANT: u64 = 11;
pub const SYS_CAP_REVOKE: u64 = 12;
pub const SYS_CAP_RESTRICT: u64 = 13;
pub const SYS_CAP_INSPECT: u64 = 14;
pub const SYS_CHANNEL_SEND: u64 = 21;
pub const SYS_CHANNEL_RECV: u64 = 22;
pub const SYS_FS_OPEN: u64 = 30;
pub const SYS_FS_READ: u64 = 31;
pub const SYS_FS_STAT: u64 = 32;
pub const SYS_FS_CLOSE: u64 = 33;
pub const SYS_GPU_DMA: u64 = 40;
pub const SYS_GPU_PLEDGE: u64 = 41;
pub const SYS_GPU_UNVEIL: u64 = 42;
pub const SYS_MMAP: u64 = 43;
pub const SYS_YIELD: u64 = 62;

// System call categories that a pledge can keep.
pub const PLEDGE_SERIAL: u64 = 1;
pub const PLEDGE_CHANNEL: u64 = 2;
pub const PLEDGE_GPU_DMA: u64 = 4;

// Capability types.
pub const CAP_CHANNEL: u8 = 1;
pub const CAP_SHARD: u8 = 2;
pub const CAP_MEMORY: u8 = 3;
pub const CAP_GPU_DMA: u8 = 4;

// Rights on a channel.
pub const RIGHT_CHANNEL_SEND: u16 = 1;
pub const RIGHT_CHANNEL_RECV: u16 = 2;
pub const RIGHT_CHANNEL_GRANT: u16 = 4;

// Rights on GPU DMA.
pub const RIGHT_GPU_DMA_WRITE: u16 = 1;

} // verus!
