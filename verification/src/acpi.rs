//! ACPI table discovery: from the root pointer through the root table to the firmware's
//! tables, of which the signature, the address and the length are kept.

use vstd::prelude::*;

use crate::mem::{byte_at, Memory};

verus! {

/// Number of tables that are kept.
pub const MAX_TABLES: usize = 32;

/// Length of the header that every table starts with.
pub const SDT_HEADER: u32 = 36;

/// Where a table is.
#[derive(Debug, Clone, Copy, PartialEq, Eq, Structural)]
pub struct TableEntry {
    pub signature: u32,
    pub phys_addr: u64,
    pub length: u32,
}

/// Why the tables cannot be used.
#[derive(Debug, Clone, Copy, PartialEq, Eq, Structural)]
pub enum AcpiError {
    /// A structure lies outside physical memory.
    Unreadable,
    /// The root pointer does not start with its signature.
    BadSignature,
    /// The first 20 bytes of the root pointer do not add up to zero.
    BadChecksum,
    /// The 36 bytes of the extended root pointer do not add up to zero.
    BadExtendedChecksum,
    /// The bytes of the root table do not add up to zero.
    BadTableChecksum,
    /// The root table is shorter than its header.
    TooShort,
}

/// Sum of the `n` bytes from `a` on.
pub open spec fn byte_sum(m: Seq<u64>, a: int, n: int) -> int
    decreases n,
{
    if n <= 0 {
        0
    } else {
        byte_sum(m, a, n - 1) + byte_at(m, a + n - 1)
    }
}

/// The number in four bytes from `a` on, the low byte first.
pub open spec fn u32_at(m: Seq<u64>, a: int) -> int {
    byte_at(m, a) + 0x100 * byte_at(m, a + 1) + 0x1_0000 * byte_at(m, a + 2) + 0x100_0000 * byte_at(
        m,
        a + 3,
    )
}

/// The number in eight bytes from `a` on, the low byte first.
pub open spec fn u64_at(m: Seq<u64>, a: int) -> int {
    u32_at(m, a) + 0x1_0000_0000 * u32_at(m, a + 4)
}

/// Whether `n` bytes from `a` on lie in memory.
pub open spec fn in_memory(m: Seq<u64>, a: int, n: int) -> bool {
    a + n <= 8 * m.len()
}

/// The bytes "RSD PTR " as a number.
pub const RSDP_SIGNATURE: u64 = 0x2052_5450_2044_5352;

/// Pointer number `i` of a root table whose pointers are `width` bytes long.
pub open spec fn pointer(m: Seq<u64>, base: int, width: int, i: int) -> int {
    if width == 8 {
        u64_at(m, base + SDT_HEADER + 8 * i)
    } else {
        u32_at(m, base + SDT_HEADER + 4 * i)
    }
}

/// The table at an address.
pub open spec fn table_entry(m: Seq<u64>, a: int) -> TableEntry {
    TableEntry {
        signature: u32_at(m, a) as u32,
        phys_addr: a as u64,
        length: u32_at(m, a + 4) as u32,
    }
}

/// Number of tables that are kept of a root table with `length` bytes.
pub open spec fn kept(length: int, width: int) -> int {
    if (length - SDT_HEADER) / width <= MAX_TABLES {
        (length - SDT_HEADER) / width
    } else {
        MAX_TABLES as int
    }
}

/// The tables that a root table leads to.
pub open spec fn root_table(m: Seq<u64>, base: int, width: int) -> Result<Seq<TableEntry>, AcpiError> {
    let length = u32_at(m, base + 4);
    if !in_memory(m, base, 8) || !in_memory(m, base, length) {
        Err(AcpiError::Unreadable)
    } else if byte_sum(m, base, length) % 256 != 0 {
        Err(AcpiError::BadTableChecksum)
    } else if length < SDT_HEADER {
        Err(AcpiError::TooShort)
    } else if exists|i: int|
        0 <= i < kept(length, width) && !in_memory(m, #[trigger] pointer(m, base, width, i), 8) {
        Err(AcpiError::Unreadable)
    } else {
        Ok(
            Seq::new(
                kept(length, width) as nat,
                |i: int| table_entry(m, pointer(m, base, width, i)),
            ),
        )
    }
}

/// The tables that a root pointer leads to: through 64-bit pointers from revision 2 on,
/// through 32-bit pointers before. A root pointer at address zero stands for none.
pub open spec fn discover(m: Seq<u64>, rsdp: int) -> Result<Seq<TableEntry>, AcpiError> {
    if rsdp == 0 {
        Ok(Seq::<TableEntry>::empty())
    } else if !in_memory(m, rsdp, 20) {
        Err(AcpiError::Unreadable)
    } else if u64_at(m, rsdp) != RSDP_SIGNATURE {
        Err(AcpiError::BadSignature)
    } else if byte_sum(m, rsdp, 20) % 256 != 0 {
        Err(AcpiError::BadChecksum)
    } else if byte_at(m, rsdp + 15) < 2 {
        root_table(m, u32_at(m, rsdp + 16), 4)
    } else if !in_memory(m, rsdp, 36) {
        Err(AcpiError::Unreadable)
    } else if byte_sum(m, rsdp, 36) % 256 != 0 {
        Err(AcpiError::BadExtendedChecksum)
    } else {
        root_table(m, u64_at(m, rsdp + 24), 8)
    }
}

/// Whether the `len` bytes from `phys` on add up to zero.
fn checksum_valid(mem: &Memory, phys: u64, len: u64) -> (r: bool)
    requires
        in_memory(mem@, phys as int, len as int),
        phys + len <= u64::MAX,
    ensures
        r == (byte_sum(mem@, phys as int, len as int) % 256 == 0),
{
    let mut sum: u8 = 0;
    let mut i: u64 = 0;
    while i < len
        invariant
            i <= len,
            phys + len <= u64::MAX,
            in_memory(mem@, phys as int, len as int),
            sum == byte_sum(mem@, phys as int, i as int) % 256,
        decreases len - i,
    {
        let b: u8 = mem.read_byte(phys + i);
        sum = sum.wrapping_add(b);
        i += 1;
    }
    sum == 0
}

fn read_u32(mem: &Memory, phys: u64) -> (r: u32)
    requires
        in_memory(mem@, phys as int, 4),
        phys + 4 <= u64::MAX,
    ensures
        r == u32_at(mem@, phys as int),
{
    mem.read_byte(phys) as u32 + 0x100 * (mem.read_byte(phys + 1) as u32) + 0x1_0000 * (
    mem.read_byte(phys + 2) as u32) + 0x100_0000 * (mem.read_byte(phys + 3) as u32)
}

fn read_u64(mem: &Memory, phys: u64) -> (r: u64)
    requires
        in_memory(mem@, phys as int, 8),
        phys + 8 <= u64::MAX,
    ensures
        r == u64_at(mem@, phys as int),
{
    read_u32(mem, phys) as u64 + 0x1_0000_0000 * (read_u32(mem, phys + 4) as u64)
}

/// Whether `n` bytes from `phys` on lie in memory and below the end of the address space.
fn readable(mem: &Memory, phys: u64, n: u64) -> (r: bool)
    requires
        8 * mem@.len() <= u64::MAX,
    ensures
        r == in_memory(mem@, phys as int, n as int),
        r ==> phys + n <= u64::MAX,
{
    mem.holds(phys, n)
}

/// The tables found.
pub struct AcpiTables {
    tables: Vec<TableEntry>,
}

impl View for AcpiTables {
    type V = Seq<TableEntry>;

    closed spec fn view(&self) -> Seq<TableEntry> {
        self.tables@
    }
}

impl AcpiTables {
    /// The tables found.
    pub fn list(&self) -> (t: &Vec<TableEntry>)
        ensures
            t@ == self@,
    {
        &self.tables
    }
}

/// Find the tables, from the physical address of the root pointer on.
pub fn init(mem: &Memory, rsdp_phys: u64) -> (r: Result<AcpiTables, AcpiError>)
    requires
        8 * mem@.len() <= u64::MAX,
    ensures
        match r {
            Ok(t) => discover(mem@, rsdp_phys as int) == Ok::<Seq<TableEntry>, AcpiError>(t@),
            Err(e) => discover(mem@, rsdp_phys as int) == Err::<Seq<TableEntry>, AcpiError>(e),
        },
{
    if rsdp_phys == 0 {
        let t = AcpiTables { tables: Vec::new() };
        assert(t@ =~= Seq::<TableEntry>::empty());
        return Ok(t);
    }
    if !readable(mem, rsdp_phys, 20) {
        return Err(AcpiError::Unreadable);
    }
    if read_u64(mem, rsdp_phys) != RSDP_SIGNATURE {
        return Err(AcpiError::BadSignature);
    }
    if !checksum_valid(mem, rsdp_phys, 20) {
        return Err(AcpiError::BadChecksum);
    }
    let revision: u8 = mem.read_byte(rsdp_phys + 15);
    if revision >= 2 {
        if !readable(mem, rsdp_phys, 36) {
            return Err(AcpiError::Unreadable);
        }
        if !checksum_valid(mem, rsdp_phys, 36) {
            return Err(AcpiError::BadExtendedChecksum);
        }
        let xsdt_phys: u64 = read_u64(mem, rsdp_phys + 24);
        parse_root(mem, xsdt_phys, 8)
    } else {
        let rsdt_phys: u64 = read_u32(mem, rsdp_phys + 16) as u64;
        parse_root(mem, rsdt_phys, 4)
    }
}

/// Follow the pointers of a root table, `width` bytes each.
fn parse_root(mem: &Memory, base: u64, width: u64) -> (r: Result<AcpiTables, AcpiError>)
    requires
        8 * mem@.len() <= u64::MAX,
        width == 4 || width == 8,
    ensures
        match r {
            Ok(t) => root_table(mem@, base as int, width as int) == Ok::<
                Seq<TableEntry>,
                AcpiError,
            >(t@),
            Err(e) => root_table(mem@, base as int, width as int) == Err::<
                Seq<TableEntry>,
                AcpiError,
            >(e),
        },
{
    if !readable(mem, base, 8) {
        return Err(AcpiError::Unreadable);
    }
    let length: u32 = read_u32(mem, base + 4);
    if !readable(mem, base, length as u64) {
        return Err(AcpiError::Unreadable);
    }
    if !checksum_valid(mem, base, length as u64) {
        return Err(AcpiError::BadTableChecksum);
    }
    if length < SDT_HEADER {
        return Err(AcpiError::TooShort);
    }
    let entry_count: u64 = (length - SDT_HEADER) as u64 / width;
    let n: u64 = if entry_count <= MAX_TABLES as u64 {
        entry_count
    } else {
        MAX_TABLES as u64
    };
    assert(n == kept(length as int, width as int));
    assert(n * width <= length - SDT_HEADER) by (nonlinear_arith)
        requires
            width == 4 && 4 * n <= length - SDT_HEADER || width == 8 && 8 * n <= length
                - SDT_HEADER,
    ;
    let mut tables: Vec<TableEntry> = Vec::new();
    let mut i: u64 = 0;
    while i < n
        invariant
            i <= n <= MAX_TABLES,
            8 * mem@.len() <= u64::MAX,
            width == 4 || width == 8,
            length == u32_at(mem@, base as int + 4),
            SDT_HEADER <= length,
            in_memory(mem@, base as int, 8),
            in_memory(mem@, base as int, length as int),
            base + length <= u64::MAX,
            byte_sum(mem@, base as int, length as int) % 256 == 0,
            n == kept(length as int, width as int),
            n * width <= length - SDT_HEADER,
            tables@.len() == i,
            forall|k: int|
                0 <= k < i ==> in_memory(
                    mem@,
                    #[trigger] pointer(mem@, base as int, width as int, k),
                    8,
                ) && tables@[k] == table_entry(
                    mem@,
                    pointer(mem@, base as int, width as int, k),
                ),
        decreases n - i,
    {
        assert((i + 1) * width <= n * width) by (nonlinear_arith)
            requires
                i < n,
                width == 4 || width == 8,
        ;
        let table_phys: u64 = if width == 8 {
            read_u64(mem, base + 36 + i * 8)
        } else {
            read_u32(mem, base + 36 + i * 4) as u64
        };
        assert(table_phys == pointer(mem@, base as int, width as int, i as int));
        if !readable(mem, table_phys, 8) {
            return Err(AcpiError::Unreadable);
        }
        let signature: u32 = read_u32(mem, table_phys);
        let table_length: u32 = read_u32(mem, table_phys + 4);
        tables.push(TableEntry { signature, phys_addr: table_phys, length: table_length });
        i += 1;
    }
    proof {
        let want = Seq::new(
            kept(length as int, width as int) as nat,
            |k: int| table_entry(mem@, pointer(mem@, base as int, width as int, k)),
        );
        assert(tables@ =~= want) by {
            assert forall|k: int| 0 <= k < n implies tables@[k] == want[k] by {
                assert(in_memory(mem@, pointer(mem@, base as int, width as int, k), 8));
            }
        }
    }
    Ok(AcpiTables { tables })
}

/// Whether entry `i` is the first with the signature.
pub open spec fn first_with(t: Seq<TableEntry>, signature: int, i: int) -> bool {
    &&& 0 <= i < t.len()
    &&& t[i].signature == signature
    &&& forall|j: int| 0 <= j < i ==> (#[trigger] t[j]).signature != signature
}

/// A four-byte signature as a number, the first byte in the low bits.
pub open spec fn signature_number(s: Seq<u8>) -> int {
    s[0] + 0x100 * s[1] + 0x1_0000 * s[2] + 0x100_0000 * s[3]
}

/// Find a table by its signature. The result is its physical address and its length.
pub fn find_table(tables: &AcpiTables, signature: &[u8; 4]) -> (r: Option<(u64, u32)>)
    ensures
        match r {
            Some((phys, length)) => exists|i: int|
                #[trigger] first_with(tables@, signature_number(signature@), i)
                    && tables@[i].phys_addr == phys && tables@[i].length == length,
            None => forall|i: int|
                !#[trigger] first_with(tables@, signature_number(signature@), i),
        },
{
    let number: u32 = signature[0] as u32 + 0x100 * (signature[1] as u32) + 0x1_0000 * (
    signature[2] as u32) + 0x100_0000 * (signature[3] as u32);
    let mut i: usize = 0;
    while i < tables.tables.len()
        invariant
            i <= tables.tables@.len(),
            number == signature_number(signature@),
            forall|j: int| 0 <= j < i ==> (#[trigger] tables.tables@[j]).signature != number,
        decreases tables.tables@.len() - i,
    {
        let entry = tables.tables[i];
        if entry.signature == number {
            assert(first_with(tables@, number as int, i as int));
            return Some((entry.phys_addr, entry.length));
        }
        i += 1;
    }
    None
}

/// A root pointer with one byte changed in its first 20 is refused: its bytes no longer add
/// up to zero.
pub proof fn law_checksum_catches_a_byte(m: Seq<u64>, m2: Seq<u64>, rsdp: int, k: int)
    requires
        0 <= k < 20,
        byte_sum(m, rsdp, 20) % 256 == 0,
        forall|i: int|
            0 <= i < 20 && i != k ==> #[trigger] byte_at(m2, rsdp + i) == byte_at(m, rsdp + i),
        byte_at(m2, rsdp + k) != byte_at(m, rsdp + k),
    ensures
        byte_sum(m2, rsdp, 20) % 256 != 0,
{
    lemma_sum_change(m, m2, rsdp, 20, k);
}

proof fn lemma_sum_change(m: Seq<u64>, m2: Seq<u64>, a: int, n: int, k: int)
    requires
        0 <= k < 20,
        0 <= n <= 20,
        forall|i: int|
            0 <= i < 20 && i != k ==> #[trigger] byte_at(m2, a + i) == byte_at(m, a + i),
    ensures
        byte_sum(m2, a, n) == byte_sum(m, a, n) + (if k < n {
            byte_at(m2, a + k) - byte_at(m, a + k)
        } else {
            0
        }),
    decreases n,
{
    if n > 0 {
        lemma_sum_change(m, m2, a, n - 1, k);
        if n - 1 != k {
            assert(byte_at(m2, a + (n - 1)) == byte_at(m, a + (n - 1)));
        }
    }
}

/// Whether the four bytes from `a` on spell `x`, the low byte first.
pub open spec fn spells4(m: Seq<u64>, a: int, x: int) -> bool {
    x == byte_at(m, a) + 0x100 * byte_at(m, a + 1) + 0x1_0000 * byte_at(m, a + 2) + 0x100_0000
        * byte_at(m, a + 3)
}

/// Whether the eight bytes from `a` on spell `x`, the low byte first.
pub open spec fn spells8(m: Seq<u64>, a: int, x: int) -> bool {
    x == byte_at(m, a) + 0x100 * byte_at(m, a + 1) + 0x1_0000 * byte_at(m, a + 2) + 0x100_0000
        * byte_at(m, a + 3) + 0x1_0000_0000 * byte_at(m, a + 4) + 0x100_0000_0000 * byte_at(
        m,
        a + 5,
    ) + 0x1_0000_0000_0000 * byte_at(m, a + 6) + 0x100_0000_0000_0000 * byte_at(m, a + 7)
}

/// Whether memory holds a root table at `base` that lists the addresses: a header of 36
/// bytes with the length of the whole in bytes 4 to 7, then the addresses one behind the
/// other, each `width` bytes long. The bytes of the table add up to a multiple of 256, and
/// the first eight bytes at each address lie in memory.
pub open spec fn root_laid_out(m: Seq<u64>, base: int, width: int, addrs: Seq<u64>) -> bool {
    let total = 36 + width * addrs.len();
    &&& 0 <= base
    &&& base + total <= 8 * m.len()
    &&& spells4(m, base + 4, total)
    &&& byte_sum(m, base, total) % 256 == 0
    &&& forall|i: int|
        0 <= i < addrs.len() ==> (#[trigger] addrs[i]) + 8 <= 8 * m.len() && if width == 8 {
            spells8(m, base + 36 + 8 * i, addrs[i] as int)
        } else {
            spells4(m, base + 36 + 4 * i, addrs[i] as int)
        }
}

/// Whether the tables are those at the addresses, as many as are kept, in their order, each
/// with the signature in its first four bytes and the length in the next four.
pub open spec fn tables_at(m: Seq<u64>, addrs: Seq<u64>, ts: Seq<TableEntry>) -> bool {
    &&& ts.len() == (if addrs.len() <= 32 {
        addrs.len() as int
    } else {
        32
    })
    &&& forall|i: int|
        0 <= i < ts.len() ==> (#[trigger] ts[i]).phys_addr == addrs[i] && spells4(
            m,
            addrs[i] as int,
            ts[i].signature as int,
        ) && spells4(m, addrs[i] + 4, ts[i].length as int)
}

/// A root table gives back the list of addresses that it was made from.
pub proof fn law_root_table_lists(m: Seq<u64>, base: int, width: int, addrs: Seq<u64>)
    requires
        width == 4 || width == 8,
        root_laid_out(m, base, width, addrs),
    ensures
        root_table(m, base, width) matches Ok(ts) && tables_at(m, addrs, ts),
{
    let n = addrs.len() as int;
    let length = u32_at(m, base + 4);
    assert(width * addrs.len() == 4 * n || width * addrs.len() == 8 * n);
    assert((length - SDT_HEADER) / width == n) by {
        if width == 4 {
            assert(4 * n / 4 == n);
        } else {
            assert(8 * n / 8 == n);
        }
    }
    assert forall|i: int| 0 <= i < n implies #[trigger] pointer(m, base, width, i) == addrs[i] by {
        assert(addrs[i] + 8 <= 8 * m.len());
    }
    assert forall|i: int| 0 <= i < kept(length, width) implies in_memory(
        m,
        #[trigger] pointer(m, base, width, i),
        8,
    ) by {
        assert(pointer(m, base, width, i) == addrs[i]);
        assert(addrs[i] + 8 <= 8 * m.len());
    }
    let ts = Seq::new(
        kept(length, width) as nat,
        |i: int| table_entry(m, pointer(m, base, width, i)),
    );
    assert(root_table(m, base, width) == Ok::<Seq<TableEntry>, AcpiError>(ts));
    assert forall|i: int| 0 <= i < ts.len() implies (#[trigger] ts[i]).phys_addr == addrs[i]
        && spells4(m, addrs[i] as int, ts[i].signature as int) && spells4(
        m,
        addrs[i] + 4,
        ts[i].length as int,
    ) by {
        assert(pointer(m, base, width, i) == addrs[i]);
    }
}

/// Whether the eight bytes from `a` on are "RSD PTR ".
pub open spec fn says_rsd_ptr(m: Seq<u64>, a: int) -> bool {
    &&& byte_at(m, a) == 0x52 && byte_at(m, a + 1) == 0x53 && byte_at(m, a + 2) == 0x44
    &&& byte_at(m, a + 3) == 0x20 && byte_at(m, a + 4) == 0x50 && byte_at(m, a + 5) == 0x54
    &&& byte_at(m, a + 6) == 0x52 && byte_at(m, a + 7) == 0x20
}

/// Discovery gives back the list of addresses in the root table: the one that the eight
/// bytes at 24 point to, with addresses of eight bytes, where byte 15 of the root pointer is
/// 2 or more, else the one that the four bytes at 16 point to, with addresses of four bytes.
pub proof fn law_tables_found(m: Seq<u64>, rsdp: int, base: int, addrs: Seq<u64>)
    requires
        0 < rsdp,
        says_rsd_ptr(m, rsdp),
        byte_sum(m, rsdp, 20) % 256 == 0,
        if byte_at(m, rsdp + 15) >= 2 {
            &&& rsdp + 36 <= 8 * m.len()
            &&& byte_sum(m, rsdp, 36) % 256 == 0
            &&& spells8(m, rsdp + 24, base)
            &&& root_laid_out(m, base, 8, addrs)
        } else {
            &&& rsdp + 20 <= 8 * m.len()
            &&& spells4(m, rsdp + 16, base)
            &&& root_laid_out(m, base, 4, addrs)
        },
    ensures
        discover(m, rsdp) matches Ok(ts) && tables_at(m, addrs, ts),
{
    assert(u64_at(m, rsdp) == RSDP_SIGNATURE);
    if byte_at(m, rsdp + 15) >= 2 {
        law_root_table_lists(m, base, 8, addrs);
    } else {
        law_root_table_lists(m, base, 4, addrs);
    }
}

/// A root pointer is refused that does not start with its signature or whose bytes do not
/// add up, in that order; none is no error.
pub proof fn law_bad_root_pointer(m: Seq<u64>, rsdp: int)
    requires
        0 <= rsdp,
        rsdp + 36 <= 8 * m.len(),
    ensures
        discover(m, 0) == Ok::<Seq<TableEntry>, AcpiError>(Seq::empty()),
        rsdp > 0 && !says_rsd_ptr(m, rsdp) ==> discover(m, rsdp) == Err::<
            Seq<TableEntry>,
            AcpiError,
        >(AcpiError::BadSignature),
        rsdp > 0 && says_rsd_ptr(m, rsdp) && byte_sum(m, rsdp, 20) % 256 != 0 ==> discover(m, rsdp)
            == Err::<Seq<TableEntry>, AcpiError>(AcpiError::BadChecksum),
        rsdp > 0 && says_rsd_ptr(m, rsdp) && byte_sum(m, rsdp, 20) % 256 == 0 && byte_at(
            m,
            rsdp + 15,
        ) >= 2 && byte_sum(m, rsdp, 36) % 256 != 0 ==> discover(m, rsdp) == Err::<
            Seq<TableEntry>,
            AcpiError,
        >(AcpiError::BadExtendedChecksum),
{
    lemma_rsd_ptr(m, rsdp);
}

/// Four bytes spell a number in one way.
proof fn lemma_spelt(a: u8, b: u8, c: u8, d: u8, x: u8, y: u8, z: u8, w: u8)
    ensures
        a + 0x100 * b + 0x1_0000 * c + 0x100_0000 * d == x + 0x100 * y + 0x1_0000 * z + 0x100_0000
            * w <==> a == x && b == y && c == z && d == w,
{
}

proof fn lemma_rsd_ptr(m: Seq<u64>, a: int)
    ensures
        u64_at(m, a) == RSDP_SIGNATURE <==> says_rsd_ptr(m, a),
{
    let low = u32_at(m, a);
    let high = u32_at(m, a + 4);
    assert(0 <= low < 0x1_0000_0000);
    assert(0 <= high < 0x1_0000_0000);
    assert(low + 0x1_0000_0000 * high == 0x2052_5450_2044_5352 <==> low == 0x2044_5352 && high
        == 0x2052_5450);
    let b = |k: int| byte_at(m, a + k);
    lemma_spelt(b(0), b(1), b(2), b(3), 0x52, 0x53, 0x44, 0x20);
    lemma_spelt(b(4), b(5), b(6), b(7), 0x50, 0x54, 0x52, 0x20);
    assert(a + 4 + 1 == a + 5 && a + 4 + 2 == a + 6 && a + 4 + 3 == a + 7);
}

/// A sum of bytes is that of its parts, and one byte's sum is the byte.
pub proof fn law_sum_of_parts(m: Seq<u64>, a: int, n: int, k: int)
    requires
        0 <= n,
        0 <= k,
    ensures
        byte_sum(m, a, n + k) == byte_sum(m, a, n) + byte_sum(m, a + n, k),
        byte_sum(m, a, 1) == byte_at(m, a),
    decreases k,
{
    reveal_with_fuel(byte_sum, 2);
    if k > 0 {
        law_sum_of_parts(m, a, n, k - 1);
    }
}

/// A table is found by the four letters that it starts with, the first such table.
pub proof fn law_table_found_by_name(
    m: Seq<u64>,
    addrs: Seq<u64>,
    ts: Seq<TableEntry>,
    name: Seq<u8>,
    i: int,
)
    requires
        tables_at(m, addrs, ts),
        name.len() == 4,
        0 <= i < ts.len(),
    ensures
        first_with(ts, signature_number(name), i) <==> {
            &&& forall|k: int| 0 <= k < 4 ==> byte_at(m, addrs[i] + k) == #[trigger] name[k]
            &&& forall|j: int|
                0 <= j < i ==> !(forall|k: int|
                    0 <= k < 4 ==> byte_at(m, (#[trigger] addrs[j]) + k) == #[trigger] name[k])
        },
{
    assert forall|j: int| 0 <= j < ts.len() implies (((#[trigger] ts[j]).signature
        == signature_number(name)) <==> (forall|k: int|
        0 <= k < 4 ==> byte_at(m, addrs[j] + k) == #[trigger] name[k])) by {
        lemma_named(m, addrs[j] as int, ts[j].signature as int, name);
    }
    if first_with(ts, signature_number(name), i) {
        assert forall|j: int| 0 <= j < i implies !(forall|k: int|
            0 <= k < 4 ==> byte_at(m, (#[trigger] addrs[j]) + k) == #[trigger] name[k]) by {
            assert(ts[j].signature != signature_number(name));
        }
        assert(ts[i].signature == signature_number(name));
    } else if forall|k: int| 0 <= k < 4 ==> byte_at(m, addrs[i] + k) == #[trigger] name[k] {
        assert(ts[i].signature == signature_number(name));
        let j = choose|j: int| 0 <= j < i && (#[trigger] ts[j]).signature == signature_number(name);
        assert(forall|k: int| 0 <= k < 4 ==> byte_at(m, addrs[j] + k) == #[trigger] name[k]);
    }
}

proof fn lemma_named(m: Seq<u64>, a: int, signature: int, name: Seq<u8>)
    requires
        spells4(m, a, signature),
        name.len() == 4,
    ensures
        signature == signature_number(name) <==> forall|k: int|
            0 <= k < 4 ==> byte_at(m, a + k) == #[trigger] name[k],
{
    if signature == signature_number(name) {
        assert forall|k: int| 0 <= k < 4 implies byte_at(m, a + k) == #[trigger] name[k] by {
            assert(k == 0 || k == 1 || k == 2 || k == 3);
        }
    } else if forall|k: int| 0 <= k < 4 ==> byte_at(m, a + k) == #[trigger] name[k] {
        assert(byte_at(m, a + 0) == name[0]);
        assert(byte_at(m, a + 1) == name[1]);
        assert(byte_at(m, a + 2) == name[2]);
        assert(byte_at(m, a + 3) == name[3]);
    }
}

} // verus!
