# coconut

A capability-based microkernel for GPU-isolated inference, as a verified library.

`src/` holds everything that decides something, proved with Verus: physical memory, page
tables and address spaces, shards (isolated user programs), capabilities, channels, the
scheduler, the system call table, the ext2 ramdisk, PCI and ACPI discovery, DMA remapping, the
partitions of a GPU, and the boot loader's ELF and memory map handling. `app/` is the machine
side: boot firmware, ports, model-specific registers, interrupt entries and context switches.
It hands plain values to the library and performs what the library decides.

## Modules

| Modules | Subject |
|---|---|
| `mem`, `bits`, `bytes` | physical memory as words, bit and byte arithmetic |
| `pmm`, `frame` | 2 MiB regions and 4 KiB frames |
| `vmm`, `links`, `window`, `space`, `kernel` | four-level page tables, the ways to pages, runs of pages, address spaces, the supervisor's half |
| `confine` | what user code can reach |
| `highhalf`, `start`, `boot`, `elf`, `shared` | boot tables, start of the supervisor, boot loader, handoff types |
| `shard`, `scheduler`, `capability`, `channel`, `mmap`, `user`, `syscall` | shards and what they can ask for |
| `ext2`, `fs`, `mkfs` | the filesystem, file system calls, the ramdisk image |
| `pci`, `acpi`, `iommu` | device discovery and DMA remapping |
| `gpu`, `hal`, `aslr`, `vram`, `shard_gpu` | GPU partitions, their shards, placement, the program that runs there |
| `gdt`, `tss`, `idt`, `pic`, `pit`, `serial`, `port` | tables and register writes of the processor and its devices |

## What is proved

Every function states what it returns and changes. Beyond that, public proof functions named
`law_..` relate functions to each other, for example: two shards share no frame and no page
table; every page that user code can reach lies in a frame of its shard or belongs to its
devices, none is both writable and executable, and all that shards and the supervisor do keeps
it so; a destroyed shard leaves only zeros, in frames that are free again and in its video
memory; a granted capability never has more rights than its source; a
message that is sent arrives unchanged; of the ready shards one with the highest priority
runs, in turns; a copy between GPU partitions changes nothing outside its target; the ramdisk
image that is built is read back byte for byte.
