//! A capability-based microkernel for GPU-isolated inference, as a library of
//! verified state machines and data structures.
//!
//! Everything that decides something lives here: physical memory and page
//! tables, shards, capabilities, channels, the scheduler, the filesystem, the
//! GPU partitions and the system call table. What touches the machine itself
//! (ports, model-specific registers, the boot firmware) stays outside and
//! exchanges plain values with this crate.
#![allow(unused_imports)]

pub mod acpi;
pub mod aslr;
pub mod bits;
pub mod boot;
pub mod bytes;
pub mod calls;
pub mod capability;
pub mod channel;
pub mod confine;
pub mod elf;
pub mod ext2;
pub mod frame;
pub mod fs;
pub mod gdt;
pub mod gpu;
pub mod hal;
pub mod highhalf;
pub mod idt;
pub mod iommu;
pub mod kernel;
pub mod layout;
pub mod links;
pub mod mem;
pub mod mkfs;
pub mod mmap;
pub mod pci;
pub mod pic;
pub mod pit;
pub mod pmm;
pub mod port;
pub mod scheduler;
pub mod serial;
pub mod shard;
pub mod shard_gpu;
pub mod shared;
pub mod space;
pub mod start;
pub mod syscall;
pub mod tss;
pub mod user;
pub mod vmm;
pub mod vram;
pub mod walk;
pub mod window;
pub mod wiring;
