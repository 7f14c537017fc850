//! A minimal ELF64 parser: the entry point and the segments to load, and loading them.

use vstd::prelude::*;

use crate::bytes::{le16, le32, le64, read_u16_le, read_u32_le, read_u64_le};

verus! {

/// Size of the file header.
pub const EHDR_SIZE: usize = 64;

/// Size of a program header.
pub const PHDR_SIZE: usize = 56;

/// The type of a segment to load.
pub const PT_LOAD: u32 = 1;

/// The machine type of x86-64.
pub const EM_X86_64: u16 = 0x3E;

/// Number of segments that can be loaded.
pub const MAX_SEGMENTS: usize = 8;

/// Physical address at which the supervisor is loaded.
pub const SUPERVISOR_LOAD_ADDR: u64 = 0x20_0000;

/// ELF64 file header.
#[derive(Debug, Clone, Copy)]
pub struct Elf64Header {
    pub e_ident: [u8; 16],
    pub e_type: u16,
    pub e_machine: u16,
    pub e_version: u32,
    pub e_entry: u64,
    pub e_phoff: u64,
    pub e_shoff: u64,
    pub e_flags: u32,
    pub e_ehsize: u16,
    pub e_phentsize: u16,
    pub e_phnum: u16,
    pub e_shentsize: u16,
    pub e_shnum: u16,
    pub e_shstrndx: u16,
}

impl Elf64Header {
    /// Whether the file starts with this header.
    pub open spec fn heads(&self, data: Seq<u8>) -> bool {
        &&& self.e_ident@ == data.take(16)
        &&& self.e_type == le16(data, 16)
        &&& self.e_machine == le16(data, 18)
        &&& self.e_version == le32(data, 20)
        &&& self.e_entry == le64(data, 24)
        &&& self.e_phoff == le64(data, 32)
        &&& self.e_shoff == le64(data, 40)
        &&& self.e_flags == le32(data, 48)
        &&& self.e_ehsize == le16(data, 52)
        &&& self.e_phentsize == le16(data, 54)
        &&& self.e_phnum == le16(data, 56)
        &&& self.e_shentsize == le16(data, 58)
        &&& self.e_shnum == le16(data, 60)
        &&& self.e_shstrndx == le16(data, 62)
    }

    /// Read the header of a file.
    pub fn read(data: &[u8]) -> (h: Elf64Header)
        requires
            data@.len() >= EHDR_SIZE,
        ensures
            h.heads(data@),
    {
        let mut e_ident: [u8; 16] = [0u8;16];
        let mut i: usize = 0;
        while i < 16
            invariant
                i <= 16,
                data@.len() >= EHDR_SIZE,
                e_ident@.len() == 16,
                forall|k: int| 0 <= k < i ==> #[trigger] e_ident@[k] == data@[k],
            decreases 16 - i,
        {
            e_ident[i] = data[i];
            i += 1;
        }
        assert(e_ident@ =~= data@.take(16));
        Elf64Header {
            e_ident,
            e_type: read_u16_le(data, 16),
            e_machine: read_u16_le(data, 18),
            e_version: read_u32_le(data, 20),
            e_entry: read_u64_le(data, 24),
            e_phoff: read_u64_le(data, 32),
            e_shoff: read_u64_le(data, 40),
            e_flags: read_u32_le(data, 48),
            e_ehsize: read_u16_le(data, 52),
            e_phentsize: read_u16_le(data, 54),
            e_phnum: read_u16_le(data, 56),
            e_shentsize: read_u16_le(data, 58),
            e_shnum: read_u16_le(data, 60),
            e_shstrndx: read_u16_le(data, 62),
        }
    }
}

/// ELF64 program header.
#[derive(Debug, Clone, Copy, PartialEq, Eq, Structural)]
pub struct Elf64Phdr {
    pub p_type: u32,
    pub p_flags: u32,
    pub p_offset: u64,
    pub p_vaddr: u64,
    pub p_paddr: u64,
    pub p_filesz: u64,
    pub p_memsz: u64,
    pub p_align: u64,
}

impl Elf64Phdr {
    /// The program header that starts at `at`.
    pub open spec fn spec_at(data: Seq<u8>, at: int) -> Elf64Phdr {
        Elf64Phdr {
            p_type: le32(data, at) as u32,
            p_flags: le32(data, at + 4) as u32,
            p_offset: le64(data, at + 8) as u64,
            p_vaddr: le64(data, at + 16) as u64,
            p_paddr: le64(data, at + 24) as u64,
            p_filesz: le64(data, at + 32) as u64,
            p_memsz: le64(data, at + 40) as u64,
            p_align: le64(data, at + 48) as u64,
        }
    }

    /// Read a program header.
    pub fn read(data: &[u8], at: usize) -> (h: Elf64Phdr)
        requires
            at + PHDR_SIZE <= data@.len(),
        ensures
            h == Elf64Phdr::spec_at(data@, at as int),
    {
        assert(data.len() == data@.len());
        Elf64Phdr {
            p_type: read_u32_le(data, at),
            p_flags: read_u32_le(data, at + 4),
            p_offset: read_u64_le(data, at + 8),
            p_vaddr: read_u64_le(data, at + 16),
            p_paddr: read_u64_le(data, at + 24),
            p_filesz: read_u64_le(data, at + 32),
            p_memsz: read_u64_le(data, at + 40),
            p_align: read_u64_le(data, at + 48),
        }
    }
}

/// A segment to load.
#[derive(Debug, Clone, Copy, PartialEq, Eq, Structural)]
pub struct LoadSegment {
    /// Where the segment starts in the file.
    pub file_offset: u64,
    /// Number of bytes in the file.
    pub file_size: u64,
    /// Physical address to load the segment at.
    pub load_addr: u64,
    /// Size in memory; what the file does not hold is zero.
    pub mem_size: u64,
}

/// What the parser has found.
#[derive(Debug, Clone, Copy)]
pub struct ElfInfo {
    /// Address of the entry point.
    pub entry_point: u64,
    /// The segments to load, in the order of the file.
    pub segments: [Option<LoadSegment>; MAX_SEGMENTS],
    pub segment_count: usize,
}

/// Where program header number `i` lies.
pub open spec fn phdr_at(data: Seq<u8>, i: int) -> int {
    le64(data, 32) + i * le16(data, 54)
}

/// Whether program header number `i` lies in the file.
pub open spec fn phdr_inside(data: Seq<u8>, i: int) -> bool {
    phdr_at(data, i) + PHDR_SIZE <= data.len()
}

/// The segment of program header number `i`.
pub open spec fn segment_of(data: Seq<u8>, i: int) -> LoadSegment {
    let h = Elf64Phdr::spec_at(data, phdr_at(data, i));
    LoadSegment {
        file_offset: h.p_offset,
        file_size: h.p_filesz,
        load_addr: h.p_paddr,
        mem_size: h.p_memsz,
    }
}

/// The segments to load among the first `n` program headers.
pub open spec fn segments_of(data: Seq<u8>, n: int) -> Seq<LoadSegment>
    decreases n,
{
    if n <= 0 {
        Seq::empty()
    } else if le32(data, phdr_at(data, n - 1)) == PT_LOAD {
        segments_of(data, n - 1).push(segment_of(data, n - 1))
    } else {
        segments_of(data, n - 1)
    }
}

/// What is wrong with the program headers from number `i` on, if anything.
pub open spec fn headers_error(data: Seq<u8>, i: int) -> Option<Seq<char>>
    decreases le16(data, 56) - i,
{
    if i >= le16(data, 56) {
        None
    } else if !phdr_inside(data, i) {
        Some("program header out of bounds"@)
    } else if le32(data, phdr_at(data, i)) == PT_LOAD && segments_of(data, i).len()
        >= MAX_SEGMENTS {
        Some("too many PT_LOAD segments"@)
    } else {
        headers_error(data, i + 1)
    }
}

/// What is wrong with the file, if anything.
pub open spec fn elf_error(data: Seq<u8>) -> Option<Seq<char>> {
    if data.len() < EHDR_SIZE {
        Some("ELF data too small for header"@)
    } else if !(data[0] == 0x7f && data[1] == 0x45 && data[2] == 0x4c && data[3] == 0x46) {
        Some("invalid ELF magic"@)
    } else if data[4] != 2 {
        Some("not ELF64"@)
    } else if data[5] != 1 {
        Some("not little-endian"@)
    } else if le16(data, 18) != EM_X86_64 {
        Some("not x86_64"@)
    } else {
        headers_error(data, 0)
    }
}

impl ElfInfo {
    /// The table is filled from the front.
    pub open spec fn wf(&self) -> bool {
        &&& self.segment_count <= MAX_SEGMENTS
        &&& forall|k: int|
            0 <= k < MAX_SEGMENTS ==> ((#[trigger] self.segments@[k]) is Some <==> k
                < self.segment_count)
    }

    /// The segments to load.
    pub open spec fn segs(&self) -> Seq<LoadSegment> {
        Seq::new(self.segment_count as nat, |k: int| self.segments@[k]->0)
    }
}

/// Parse an ELF64 file: the entry point and the segments to load, or an error message.
pub fn parse_elf64(data: &[u8]) -> (r: Result<ElfInfo, &'static str>)
    ensures
        match r {
            Err(e) => elf_error(data@) == Some(e@),
            Ok(info) => {
                &&& elf_error(data@) is None
                &&& info.entry_point == le64(data@, 24)
                &&& info.wf()
                &&& info.segs() == segments_of(data@, le16(data@, 56))
            },
        },
{
    if data.len() < EHDR_SIZE {
        return Err("ELF data too small for header");
    }
    let header = Elf64Header::read(data);
    let id: [u8; 16] = header.e_ident;
    assert(forall|k: int| 0 <= k < 16 ==> #[trigger] id@[k] == data@[k]);
    if !(id[0] == 0x7f && id[1] == 0x45 && id[2] == 0x4c && id[3] == 0x46) {
        return Err("invalid ELF magic");
    }
    if id[4] != 2 {
        return Err("not ELF64");
    }
    if id[5] != 1 {
        return Err("not little-endian");
    }
    if header.e_machine != EM_X86_64 {
        return Err("not x86_64");
    }
    let entry_point: u64 = header.e_entry;
    let ph_offset: u64 = header.e_phoff;
    let ph_entsize: u16 = header.e_phentsize;
    let ph_num: u16 = header.e_phnum;
    let mut info = ElfInfo { entry_point, segments: [None;MAX_SEGMENTS], segment_count: 0 };
    let mut i: u16 = 0;
    assert(info.segs() =~= segments_of(data@, 0));
    while i < ph_num
        invariant
            i <= ph_num,
            data@.len() >= EHDR_SIZE,
            ph_offset == le64(data@, 32),
            ph_entsize == le16(data@, 54),
            ph_num == le16(data@, 56),
            info.entry_point == entry_point,
            info.wf(),
            info.segs() == segments_of(data@, i as int),
            elf_error(data@) == headers_error(data@, i as int),
        decreases ph_num - i,
    {
        assert(i * ph_entsize <= 0xFFFF * 0xFFFF) by (nonlinear_arith)
            requires
                i <= 0xFFFF,
                ph_entsize <= 0xFFFF,
        ;
        let at: u128 = ph_offset as u128 + i as u128 * ph_entsize as u128;
        assert(data.len() == data@.len());
        if at + PHDR_SIZE as u128 > data.len() as u128 {
            return Err("program header out of bounds");
        }
        let at: usize = at as usize;
        let phdr = Elf64Phdr::read(data, at);
        if phdr.p_type == PT_LOAD {
            if info.segment_count >= MAX_SEGMENTS {
                return Err("too many PT_LOAD segments");
            }
            let seg = LoadSegment {
                file_offset: phdr.p_offset,
                file_size: phdr.p_filesz,
                load_addr: phdr.p_paddr,
                mem_size: phdr.p_memsz,
            };
            assert(seg == segment_of(data@, i as int));
            let ghost before = info.segs();
            info.segments[info.segment_count] = Some(seg);
            info.segment_count = info.segment_count + 1;
            assert(info.segs() =~= before.push(seg));
        }
        i += 1;
    }
    Ok(info)
}

// ---------------------------------------------------------------------------
// Loading
// ---------------------------------------------------------------------------

/// The lowest address of the segments, and the end of the highest.
pub open spec fn bounds(segs: Seq<LoadSegment>, n: int) -> (int, int)
    decreases n,
{
    if n <= 0 {
        (u64::MAX as int, 0)
    } else {
        let (lo, hi) = bounds(segs, n - 1);
        let s = segs[n - 1];
        (
            if s.load_addr < lo {
                s.load_addr as int
            } else {
                lo
            },
            if s.load_addr + s.mem_size > hi {
                s.load_addr + s.mem_size
            } else {
                hi
            },
        )
    }
}

/// Number of pages that the segments take up.
pub open spec fn pages_needed(segs: Seq<LoadSegment>) -> int {
    let (lo, hi) = bounds(segs, segs.len() as int);
    (hi - lo + 4095) / 4096
}

/// Whether what the file holds of the segment lies in the file, and where it goes in the
/// 64-bit address space.
pub open spec fn segment_fits(data: Seq<u8>, s: LoadSegment) -> bool {
    &&& s.file_offset + s.file_size <= data.len()
    &&& s.load_addr + s.file_size <= 0x1_0000_0000_0000_0000
}

/// Whether the segments can be loaded: there are some, their ends are 64-bit numbers, and
/// each of them fits.
pub open spec fn loadable(data: Seq<u8>, segs: Seq<LoadSegment>) -> bool {
    let (lo, hi) = bounds(segs, segs.len() as int);
    &&& forall|k: int|
        0 <= k < segs.len() ==> (#[trigger] segs[k]).load_addr + segs[k].mem_size <= u64::MAX
    &&& lo <= hi
    &&& hi - lo + 4095 <= usize::MAX
    &&& pages_needed(segs) * 4096 <= usize::MAX
    &&& bytes_loaded(segs, segs.len() as int) <= u64::MAX
    &&& forall|k: int| 0 <= k < segs.len() ==> segment_fits(data, #[trigger] segs[k])
}

/// Number of bytes that the first `n` segments take from the file.
pub open spec fn bytes_loaded(segs: Seq<LoadSegment>, n: int) -> int
    decreases n,
{
    if n <= 0 {
        0
    } else {
        bytes_loaded(segs, n - 1) + segs[n - 1].file_size
    }
}

/// What the file holds of a segment.
pub open spec fn file_bytes(data: Seq<u8>, s: LoadSegment) -> Seq<u8> {
    data.subrange(s.file_offset as int, s.file_offset + s.file_size)
}

/// What loading writes, in order: zeros to the pages from [`SUPERVISOR_LOAD_ADDR`] on that
/// are allocated, and what the file holds of each segment to the segment's address.
pub open spec fn writes_of(data: Seq<u8>, segs: Seq<LoadSegment>) -> Seq<(u64, Seq<u8>)> {
    Seq::new(
        segs.len() + 1,
        |k: int|
            if k == 0 {
                (
                    SUPERVISOR_LOAD_ADDR,
                    Seq::new((pages_needed(segs) * 4096) as nat, |i: int| 0u8),
                )
            } else {
                (segs[k - 1].load_addr, file_bytes(data, segs[k - 1]))
            },
    )
}

/// What the first `n` writes put into memory, by address.
pub open spec fn memory_after(writes: Seq<(u64, Seq<u8>)>, n: int) -> Map<int, u8>
    decreases n,
{
    if n <= 0 {
        Map::empty()
    } else {
        let (addr, bytes) = writes[n - 1];
        memory_after(writes, n - 1).union_prefer_right(
            Map::new(|a: int| addr <= a < addr + bytes.len(), |a: int| bytes[a - addr]),
        )
    }
}

/// What loading puts into memory, by address.
pub open spec fn image(data: Seq<u8>, segs: Seq<LoadSegment>) -> Map<int, u8> {
    memory_after(writes_of(data, segs), segs.len() as int + 1)
}

/// Bytes that are written to physical memory from `addr` on.
#[derive(Debug)]
pub struct MemoryWrite {
    pub addr: u64,
    pub bytes: Vec<u8>,
}

impl MemoryWrite {
    pub open spec fn view(&self) -> (u64, Seq<u8>) {
        (self.addr, self.bytes@)
    }
}

/// How the supervisor gets into memory.
#[derive(Debug)]
pub struct LoadedImage {
    /// What is written, in order.
    pub writes: Vec<MemoryWrite>,
    /// Number of bytes that came from the file.
    pub total_loaded: u64,
    /// Number of pages to allocate at [`SUPERVISOR_LOAD_ADDR`].
    pub page_count: usize,
}

/// Copy what the file holds of a segment.
fn copy_segment(data: &[u8], s: &LoadSegment) -> (bytes: Vec<u8>)
    requires
        s.file_offset + s.file_size <= data@.len(),
    ensures
        bytes@ == file_bytes(data@, *s),
{
    assert(data.len() == data@.len());
    let from: usize = s.file_offset as usize;
    let n: usize = s.file_size as usize;
    let mut bytes: Vec<u8> = Vec::new();
    let mut k: usize = 0;
    while k < n
        invariant
            k <= n,
            from + n <= data@.len(),
            bytes@ == data@.subrange(from as int, from + k),
        decreases n - k,
    {
        assert(data.len() == data@.len());
        bytes.push(data[from + k]);
        k += 1;
        assert(bytes@ =~= data@.subrange(from as int, from + k));
    }
    bytes
}

/// The bounds of the segments. There is no result where the end of one of them is not a
/// 64-bit number.
fn find_bounds(info: &ElfInfo) -> (r: Option<(u64, u64)>)
    requires
        info.wf(),
    ensures
        r is Some <==> forall|k: int|
            0 <= k < info.segs().len() ==> (#[trigger] info.segs()[k]).load_addr
                + info.segs()[k].mem_size <= u64::MAX,
        r matches Some((lo, hi)) ==> (lo as int, hi as int) == bounds(
            info.segs(),
            info.segs().len() as int,
        ),
{
    let ghost segs = info.segs();
    let mut lo: u64 = u64::MAX;
    let mut hi: u64 = 0;
    let mut i: usize = 0;
    while i < info.segment_count
        invariant
            i <= info.segment_count,
            info.wf(),
            segs == info.segs(),
            forall|k: int|
                0 <= k < i ==> (#[trigger] segs[k]).load_addr + segs[k].mem_size <= u64::MAX,
            (lo as int, hi as int) == bounds(segs, i as int),
        decreases info.segment_count - i,
    {
        assert(info.segments@[i as int] is Some);
        if let Some(s) = info.segments[i] {
            assert(segs[i as int] == s);
            if s.load_addr < lo {
                lo = s.load_addr;
            }
            if s.load_addr > u64::MAX - s.mem_size {
                return None;
            }
            let end: u64 = s.load_addr + s.mem_size;
            if end > hi {
                hi = end;
            }
        }
        i += 1;
    }
    Some((lo, hi))
}

/// Load the segments of a file that was parsed: what to write where, and how many pages to
/// allocate. There is no result where a segment does not lie in the file or its addresses
/// are not 64-bit numbers.
pub fn load_elf_segments(data: &[u8], info: &ElfInfo) -> (r: Option<LoadedImage>)
    requires
        info.wf(),
    ensures
        r is Some <==> loadable(data@, info.segs()),
        r matches Some(l) ==> {
            let segs = info.segs();
            let writes = writes_of(data@, segs);
            &&& l.writes@.len() == writes.len()
            &&& forall|k: int|
                0 <= k < writes.len() ==> (#[trigger] l.writes@[k]).view() == writes[k]
            &&& l.total_loaded == bytes_loaded(segs, segs.len() as int)
            &&& l.page_count == pages_needed(segs)
        },
{
    let ghost segs = info.segs();
    let ghost want = writes_of(data@, segs);
    let (lo, hi) = match find_bounds(info) {
        Some(b) => b,
        None => {
            return None;
        },
    };
    if lo > hi {
        return None;
    }
    let total_size: u64 = hi - lo;
    if total_size as u128 + 4095 > usize::MAX as u128 {
        return None;
    }
    let page_count: usize = (total_size as usize + 4095) / 4096;
    if page_count > usize::MAX / 4096 {
        return None;
    }
    let zeros: Vec<u8> = vec![0u8;page_count * 4096];
    assert(zeros@ =~= want[0].1);
    let mut writes: Vec<MemoryWrite> = Vec::new();
    writes.push(MemoryWrite { addr: SUPERVISOR_LOAD_ADDR, bytes: zeros });
    let mut total_loaded: u64 = 0;
    let mut i: usize = 0;
    while i < info.segment_count
        invariant
            i <= info.segment_count,
            info.wf(),
            segs == info.segs(),
            want == writes_of(data@, segs),
            writes@.len() == i + 1,
            forall|k: int| 0 <= k <= i ==> (#[trigger] writes@[k]).view() == want[k],
            total_loaded == bytes_loaded(segs, i as int),
            forall|k: int| 0 <= k < i ==> segment_fits(data@, #[trigger] segs[k]),
        decreases info.segment_count - i,
    {
        assert(info.segments@[i as int] is Some);
        if let Some(s) = info.segments[i] {
            assert(segs[i as int] == s);
            assert(data.len() == data@.len());
            if s.file_offset as u128 + s.file_size as u128 > data.len() as u128 {
                return None;
            }
            if s.load_addr as u128 + s.file_size as u128 > 0x1_0000_0000_0000_0000 {
                return None;
            }
            proof {
                lemma_loaded_monotone(segs, i + 1, segs.len() as int);
            }
            if s.file_size > u64::MAX - total_loaded {
                return None;
            }
            writes.push(MemoryWrite { addr: s.load_addr, bytes: copy_segment(data, &s) });
            total_loaded = total_loaded + s.file_size;
        }
        i += 1;
    }
    Some(LoadedImage { writes, total_loaded, page_count })
}

proof fn lemma_loaded_monotone(segs: Seq<LoadSegment>, a: int, b: int)
    requires
        a <= b,
    ensures
        bytes_loaded(segs, a) <= bytes_loaded(segs, b),
    decreases b,
{
    if 0 < b && a < b {
        lemma_loaded_monotone(segs, a, b - 1);
    }
}

/// Whether no byte of the file goes to the same place as one of another segment.
pub open spec fn segments_apart(segs: Seq<LoadSegment>) -> bool {
    forall|i: int, j: int|
        0 <= i < segs.len() && 0 <= j < segs.len() && i != j ==> (#[trigger] segs[i]).load_addr
            + segs[i].file_size <= (#[trigger] segs[j]).load_addr || segs[j].load_addr
            + segs[j].file_size <= segs[i].load_addr
}

/// What the first `n` writes put at an address is what the last of them that reaches it
/// holds there.
proof fn lemma_last_write(writes: Seq<(u64, Seq<u8>)>, n: int, k: int, a: int)
    requires
        0 <= k < n <= writes.len(),
        writes[k].0 <= a < writes[k].0 + writes[k].1.len(),
        forall|j: int|
            k < j < n ==> !((#[trigger] writes[j]).0 <= a < writes[j].0 + writes[j].1.len()),
    ensures
        memory_after(writes, n).dom().contains(a),
        memory_after(writes, n)[a] == writes[k].1[a - writes[k].0],
    decreases n,
{
    if k < n - 1 {
        lemma_last_write(writes, n - 1, k, a);
        assert(!(writes[n - 1].0 <= a < writes[n - 1].0 + writes[n - 1].1.len()));
    }
}

/// An address that no write reaches is not written.
proof fn lemma_not_written(writes: Seq<(u64, Seq<u8>)>, n: int, a: int)
    requires
        0 <= n <= writes.len(),
        forall|j: int|
            0 <= j < n ==> !((#[trigger] writes[j]).0 <= a < writes[j].0 + writes[j].1.len()),
    ensures
        !memory_after(writes, n).dom().contains(a),
    decreases n,
{
    if n > 0 {
        lemma_not_written(writes, n - 1, a);
        assert(!(writes[n - 1].0 <= a < writes[n - 1].0 + writes[n - 1].1.len()));
    }
}

/// Whether what the file holds of the segment goes to the address.
pub open spec fn covers(s: LoadSegment, a: int) -> bool {
    s.load_addr <= a < s.load_addr + s.file_size
}

/// Every byte that the file holds of a segment is found at its address.
pub proof fn law_segment_loaded(data: Seq<u8>, segs: Seq<LoadSegment>, k: int, i: int)
    requires
        loadable(data, segs),
        segments_apart(segs),
        0 <= k < segs.len(),
        0 <= i < segs[k].file_size,
    ensures
        image(data, segs).dom().contains(segs[k].load_addr + i),
        image(data, segs)[segs[k].load_addr + i] == data[segs[k].file_offset + i],
{
    let w = writes_of(data, segs);
    let a = segs[k].load_addr + i;
    assert(segment_fits(data, segs[k]));
    assert(w[k + 1] == (segs[k].load_addr, file_bytes(data, segs[k])));
    assert forall|j: int| k + 1 < j < w.len() implies !((#[trigger] w[j]).0 <= a < w[j].0
        + w[j].1.len()) by {
        assert(segment_fits(data, segs[j - 1]));
        assert(segs[k].load_addr + segs[k].file_size <= segs[j - 1].load_addr || segs[j
            - 1].load_addr + segs[j - 1].file_size <= segs[k].load_addr);
    }
    lemma_last_write(w, w.len() as int, k + 1, a);
}

/// In the pages that are allocated, every byte that no segment covers is zero.
pub proof fn law_rest_is_zero(data: Seq<u8>, segs: Seq<LoadSegment>, a: int)
    requires
        loadable(data, segs),
        SUPERVISOR_LOAD_ADDR <= a < SUPERVISOR_LOAD_ADDR + pages_needed(segs) * 4096,
        forall|k: int| 0 <= k < segs.len() ==> !covers(#[trigger] segs[k], a),
    ensures
        image(data, segs).dom().contains(a),
        image(data, segs)[a] == 0,
{
    let w = writes_of(data, segs);
    assert forall|j: int| 0 < j < w.len() implies !((#[trigger] w[j]).0 <= a < w[j].0
        + w[j].1.len()) by {
        assert(segment_fits(data, segs[j - 1]));
        assert(!covers(segs[j - 1], a));
    }
    lemma_last_write(w, w.len() as int, 0, a);
}

/// Nothing else is written: no byte outside the pages that are allocated and the segments.
pub proof fn law_nothing_else_written(data: Seq<u8>, segs: Seq<LoadSegment>, a: int)
    requires
        loadable(data, segs),
        !(SUPERVISOR_LOAD_ADDR <= a < SUPERVISOR_LOAD_ADDR + pages_needed(segs) * 4096),
        forall|k: int| 0 <= k < segs.len() ==> !covers(#[trigger] segs[k], a),
    ensures
        !image(data, segs).dom().contains(a),
{
    let w = writes_of(data, segs);
    assert forall|j: int| 0 <= j < w.len() implies !((#[trigger] w[j]).0 <= a < w[j].0
        + w[j].1.len()) by {
        if j > 0 {
            assert(segment_fits(data, segs[j - 1]));
            assert(!covers(segs[j - 1], a));
        }
    }
    lemma_not_written(w, w.len() as int, a);
}

/// Whether the header numbers are those of all headers below `n` whose type, their first four
/// bytes, is 1, in rising order.
pub open spec fn loads(data: Seq<u8>, n: int, hs: Seq<int>) -> bool {
    &&& forall|k: int|
        0 <= k < hs.len() ==> 0 <= #[trigger] hs[k] < n && le32(
            data,
            le64(data, 32) + hs[k] * le16(data, 54),
        ) == 1
    &&& forall|k: int, l: int| 0 <= k < l < hs.len() ==> #[trigger] hs[k] < #[trigger] hs[l]
    &&& forall|i: int|
        0 <= i < n && le32(data, #[trigger] phdr_at(data, i)) == 1 ==> hs.contains(i)
}

/// The segments are those of the headers of type 1, in the order of the file. The headers
/// lie from where bytes 32 to 39 of the file say, at the distance in bytes 54 and 55. The
/// place in the file, the size there, the physical address and the size in memory lie at
/// bytes 8, 32, 24 and 40 of the header.
pub proof fn law_segments_in_order(data: Seq<u8>, n: int, hs: Seq<int>, k: int)
    requires
        0 <= n,
        loads(data, n, hs),
    ensures
        segments_of(data, n).len() == hs.len(),
        0 <= k < hs.len() ==> ({
            let s = segments_of(data, n)[k];
            let at = le64(data, 32) + hs[k] * le16(data, 54);
            &&& s.file_offset == le64(data, at + 8) as u64
            &&& s.file_size == le64(data, at + 32) as u64
            &&& s.load_addr == le64(data, at + 24) as u64
            &&& s.mem_size == le64(data, at + 40) as u64
        }),
    decreases n,
{
    if n == 0 {
        if hs.len() > 0 {
            assert(hs[0] < 0);
        }
    } else if le32(data, phdr_at(data, n - 1)) == 1 {
        assert(hs.contains(n - 1));
        let j = choose|j: int| 0 <= j < hs.len() && hs[j] == n - 1;
        if j < hs.len() - 1 {
            assert(hs[j] < hs[hs.len() - 1]);
        }
        let rest = hs.drop_last();
        assert forall|i: int|
            0 <= i < n - 1 && le32(data, #[trigger] phdr_at(data, i)) == 1 implies rest.contains(
            i,
        ) by {
            assert(hs.contains(i));
            let l = choose|l: int| 0 <= l < hs.len() && hs[l] == i;
            assert(rest[l] == i);
        }
        assert forall|l: int| 0 <= l < rest.len() implies 0 <= #[trigger] rest[l] < n - 1 && le32(
            data,
            le64(data, 32) + rest[l] * le16(data, 54),
        ) == 1 by {
            assert(hs[l] < hs[j]);
        }
        assert(loads(data, n - 1, rest));
        law_segments_in_order(data, n - 1, rest, k);
        if 0 <= k < rest.len() {
            assert(rest[k] == hs[k]);
        }
    } else {
        assert forall|l: int| 0 <= l < hs.len() implies 0 <= #[trigger] hs[l] < n - 1 by {
            if hs[l] == n - 1 {
                assert(phdr_at(data, n - 1) == le64(data, 32) + hs[l] * le16(data, 54));
            }
        }
        assert(loads(data, n - 1, hs));
        law_segments_in_order(data, n - 1, hs, k);
    }
}

proof fn lemma_fewer_segments(data: Seq<u8>, i: int, n: int)
    requires
        0 <= i <= n,
    ensures
        segments_of(data, i).len() <= segments_of(data, n).len(),
    decreases n,
{
    if i < n {
        lemma_fewer_segments(data, i, n - 1);
    }
}

proof fn lemma_no_header_error(data: Seq<u8>, i: int)
    requires
        0 <= i,
        forall|k: int|
            0 <= k < le16(data, 56) ==> (#[trigger] phdr_at(data, k)) + 56 <= data.len(),
        segments_of(data, le16(data, 56)).len() <= 8,
    ensures
        headers_error(data, i) is None,
    decreases le16(data, 56) - i,
{
    if i < le16(data, 56) {
        assert(phdr_at(data, i) + 56 <= data.len());
        lemma_fewer_segments(data, i + 1, le16(data, 56));
        lemma_no_header_error(data, i + 1);
    }
}

/// A 64-bit little-endian file for x86-64 is accepted whose headers lie in the file, with at
/// most eight segments to load.
pub proof fn law_file_accepted(data: Seq<u8>, hs: Seq<int>)
    requires
        data.len() >= 64,
        data[0] == 0x7f && data[1] == 0x45 && data[2] == 0x4c && data[3] == 0x46,
        data[4] == 2,
        data[5] == 1,
        data[18] == 0x3E && data[19] == 0,
        forall|k: int|
            0 <= k < le16(data, 56) ==> (#[trigger] phdr_at(data, k)) + 56 <= data.len(),
        loads(data, le16(data, 56), hs),
        hs.len() <= 8,
    ensures
        elf_error(data) is None,
{
    law_segments_in_order(data, le16(data, 56), hs, 0);
    lemma_no_header_error(data, 0);
}

/// The pages that are allocated reach from the lowest address of a segment to the highest.
pub proof fn law_pages_cover_segments(segs: Seq<LoadSegment>, lo: int, hi: int, n: int)
    requires
        0 < n <= segs.len(),
        forall|k: int|
            0 <= k < n ==> lo <= (#[trigger] segs[k]).load_addr && segs[k].load_addr
                + segs[k].mem_size <= hi,
        exists|k: int| 0 <= k < n && (#[trigger] segs[k]).load_addr == lo,
        exists|k: int|
            0 <= k < n && (#[trigger] segs[k]).load_addr + segs[k].mem_size == hi,
        lo < u64::MAX,
        0 < hi,
    ensures
        bounds(segs, n) == (lo, hi),
        n == segs.len() ==> pages_needed(segs) == (hi - lo + 4095) / 4096,
{
    lemma_bounds(segs, n);
    let a = choose|k: int| 0 <= k < n && (#[trigger] segs[k]).load_addr == lo;
    let b = choose|k: int| 0 <= k < n && (#[trigger] segs[k]).load_addr + segs[k].mem_size == hi;
    assert(bounds(segs, n).0 <= segs[a].load_addr);
    assert(segs[b].load_addr + segs[b].mem_size <= bounds(segs, n).1);
}

proof fn lemma_bounds(segs: Seq<LoadSegment>, n: int)
    requires
        0 <= n <= segs.len(),
    ensures
        forall|k: int|
            0 <= k < n ==> bounds(segs, n).0 <= (#[trigger] segs[k]).load_addr && segs[k].load_addr
                + segs[k].mem_size <= bounds(segs, n).1,
        bounds(segs, n).0 == u64::MAX || exists|k: int|
            0 <= k < n && bounds(segs, n).0 == (#[trigger] segs[k]).load_addr,
        bounds(segs, n).1 == 0 || exists|k: int|
            0 <= k < n && bounds(segs, n).1 == (#[trigger] segs[k]).load_addr + segs[k].mem_size,
    decreases n,
{
    if n > 0 {
        lemma_bounds(segs, n - 1);
        let (lo, hi) = bounds(segs, n - 1);
        let s = segs[n - 1];
        if lo != u64::MAX && !(s.load_addr < lo) {
            let k = choose|k: int| 0 <= k < n - 1 && lo == (#[trigger] segs[k]).load_addr;
            assert(bounds(segs, n).0 == segs[k].load_addr);
        }
        if hi != 0 && !(s.load_addr + s.mem_size > hi) {
            let k = choose|k: int|
                0 <= k < n - 1 && hi == (#[trigger] segs[k]).load_addr + segs[k].mem_size;
            assert(bounds(segs, n).1 == segs[k].load_addr + segs[k].mem_size);
        }
    }
}

/// The number of bytes that come from the file is that of the first segments and of the rest.
pub proof fn law_bytes_loaded_adds(segs: Seq<LoadSegment>, n: int)
    requires
        0 <= n < segs.len(),
    ensures
        bytes_loaded(segs, n + 1) == bytes_loaded(segs, n) + segs[n].file_size,
        bytes_loaded(segs, 0) == 0,
{
}

/// What is refused, and why: fewer than 64 bytes; other first bytes than 0x7F, "ELF"; not 64
/// bits, not little-endian, not for x86-64. Otherwise the first header that does not lie in
/// the file, or the ninth segment to load, whichever comes first.
pub proof fn law_file_refused(data: Seq<u8>, n: int, hs: Seq<int>)
    requires
        0 <= n < le16(data, 56),
        loads(data, n, hs),
        forall|k: int| 0 <= k < n ==> (#[trigger] phdr_at(data, k)) + 56 <= data.len(),
        hs.len() <= 8,
    ensures
        ({
            let e = elf_error(data);
            let at = le64(data, 32) + n * le16(data, 54);
            let magic = data[0] == 0x7f && data[1] == 0x45 && data[2] == 0x4c && data[3] == 0x46;
            let machine = data[18] == 0x3E && data[19] == 0;
            if data.len() < 64 {
                e == Some("ELF data too small for header"@)
            } else if !magic {
                e == Some("invalid ELF magic"@)
            } else if data[4] != 2 {
                e == Some("not ELF64"@)
            } else if data[5] != 1 {
                e == Some("not little-endian"@)
            } else if !machine {
                e == Some("not x86_64"@)
            } else if at + 56 > data.len() {
                e == Some("program header out of bounds"@)
            } else {
                le32(data, at) == 1 && hs.len() == 8 ==> e == Some("too many PT_LOAD segments"@)
            }
        }),
{
    law_segments_in_order(data, n, hs, 0);
    lemma_error_from(data, 0, n);
    assert(phdr_at(data, n) == le64(data, 32) + n * le16(data, 54));
}

/// Headers in order are passed over, up to number `n`.
proof fn lemma_error_from(data: Seq<u8>, i: int, n: int)
    requires
        0 <= i <= n < le16(data, 56),
        forall|k: int| 0 <= k < n ==> (#[trigger] phdr_at(data, k)) + 56 <= data.len(),
        segments_of(data, n).len() <= 8,
    ensures
        headers_error(data, i) == headers_error(data, n),
    decreases n - i,
{
    if i < n {
        assert(phdr_at(data, i) + 56 <= data.len());
        lemma_segments_grow(data, i + 1, n);
        lemma_error_from(data, i + 1, n);
    }
}

/// More headers give no fewer segments.
proof fn lemma_segments_grow(data: Seq<u8>, i: int, n: int)
    requires
        0 <= i <= n,
    ensures
        segments_of(data, i).len() <= segments_of(data, n).len(),
    decreases n - i,
{
    if i < n {
        lemma_segments_grow(data, i, n - 1);
    }
}

} // verus!
