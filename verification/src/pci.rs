//! PCI bus enumeration and base address registers.
//!
//! The configuration space is read and written through I/O ports outside this module; the
//! types here decide which register comes next and what its value means.

use vstd::prelude::*;

verus! {

/// I/O ports of the configuration mechanism.
pub const CONFIG_ADDRESS: u16 = 0xCF8;

pub const CONFIG_DATA: u16 = 0xCFC;

/// Number of devices that are remembered.
pub const MAX_DEVICES: usize = 64;

/// Class code of display controllers.
pub const CLASS_DISPLAY: u8 = 0x03;

/// The value of the configuration address register for a register of a function.
pub open spec fn address_of(bus: u8, device: u8, function: u8, offset: u8) -> int {
    0x8000_0000 + 0x1_0000 * bus + 0x800 * device + 0x100 * function + (offset - offset % 4)
}

/// Build a configuration address register value.
pub fn config_addr(bus: u8, device: u8, function: u8, offset: u8) -> (r: u32)
    ensures
        r == 0x8000_0000u32 | ((bus as u32) << 16) | ((device as u32) << 11) | ((function as u32)
            << 8) | ((offset as u32) & 0xFC),
{
    0x8000_0000u32 | ((bus as u32) << 16) | ((device as u32) << 11) | ((function as u32) << 8) | ((
    offset as u32) & 0xFC)
}

/// The address of a register tells its bus, its slot, its function and its place apart: the
/// parts of the value do not overlap.
pub proof fn law_config_address(bus: u8, device: u8, function: u8, offset: u8)
    requires
        device < 32,
        function < 8,
    ensures
        0x8000_0000u32 | ((bus as u32) << 16) | ((device as u32) << 11) | ((function as u32) << 8)
            | ((offset as u32) & 0xFC) == address_of(bus, device, function, offset),
{
    let (b, d, f, o) = (bus as u32, device as u32, function as u32, offset as u32);
    assert(0x8000_0000u32 | (b << 16) | (d << 11) | (f << 8) | (o & 0xFC) == 0x8000_0000 + 0x1_0000
        * b + 0x800 * d + 0x100 * f + (o - o % 4)) by (bit_vector)
        requires
            b < 256,
            d < 32,
            f < 8,
            o < 256,
    ;
}

#[derive(Debug, Clone, Copy, PartialEq, Eq, Structural)]
pub struct PciDevice {
    pub bus: u8,
    pub device: u8,
    pub function: u8,
    pub vendor_id: u16,
    pub device_id: u16,
    pub class: u8,
    pub subclass: u8,
}

/// The device that the identification and class registers of a function describe.
pub open spec fn device_of(bus: u8, device: u8, function: u8, id: u32, class_reg: u32) -> PciDevice {
    PciDevice {
        bus,
        device,
        function,
        vendor_id: (id as int % 0x1_0000) as u16,
        device_id: (id as int / 0x1_0000) as u16,
        class: (class_reg as int / 0x100_0000) as u8,
        subclass: (class_reg as int / 0x1_0000 % 0x100) as u8,
    }
}

/// Decode the registers of a function.
pub fn probe_function(bus: u8, device: u8, function: u8, id: u32, class_reg: u32) -> (d: PciDevice)
    ensures
        d == device_of(bus, device, function, id, class_reg),
{
    PciDevice {
        bus,
        device,
        function,
        vendor_id: (id % 0x1_0000) as u16,
        device_id: (id / 0x1_0000) as u16,
        class: (class_reg / 0x100_0000) as u8,
        subclass: (class_reg / 0x1_0000 % 0x100) as u8,
    }
}

/// A readable name for common class and subclass codes.
pub open spec fn class_text(class: u8, subclass: u8) -> Seq<char> {
    if class == 0x00 && subclass == 0x00 {
        "Non-VGA unclassified"@
    } else if class == 0x01 {
        "Mass storage controller"@
    } else if class == 0x02 {
        "Network controller"@
    } else if class == 0x03 && subclass == 0x00 {
        "VGA compatible controller"@
    } else if class == 0x03 {
        "Display controller"@
    } else if class == 0x04 {
        "Multimedia controller"@
    } else if class == 0x06 && subclass == 0x00 {
        "Host bridge"@
    } else if class == 0x06 && subclass == 0x01 {
        "ISA bridge"@
    } else if class == 0x06 && subclass == 0x04 {
        "PCI bridge"@
    } else if class == 0x06 {
        "Bridge device"@
    } else if class == 0x08 {
        "System peripheral"@
    } else if class == 0x0C && subclass == 0x03 {
        "USB controller"@
    } else if class == 0x0C {
        "Serial bus controller"@
    } else {
        "Unknown"@
    }
}

/// A readable name for common class and subclass codes.
pub fn class_name(class: u8, subclass: u8) -> (r: &'static str)
    ensures
        r@ == class_text(class, subclass),
{
    match (class, subclass) {
        (0x00, 0x00) => "Non-VGA unclassified",
        (0x01, _) => "Mass storage controller",
        (0x02, _) => "Network controller",
        (0x03, 0x00) => "VGA compatible controller",
        (0x03, _) => "Display controller",
        (0x04, _) => "Multimedia controller",
        (0x06, 0x00) => "Host bridge",
        (0x06, 0x01) => "ISA bridge",
        (0x06, 0x04) => "PCI bridge",
        (0x06, _) => "Bridge device",
        (0x08, _) => "System peripheral",
        (0x0C, 0x03) => "USB controller",
        (0x0C, _) => "Serial bus controller",
        _ => "Unknown",
    }
}

// ---------------------------------------------------------------------------
// Enumeration
// ---------------------------------------------------------------------------

/// A configuration space: the value of each register, by bus, device, function and offset.
pub type ConfigSpace = spec_fn(u8, u8, u8, u8) -> u32;

/// Whether a function answers.
pub open spec fn answers(cfg: ConfigSpace, bus: u8, device: u8, function: u8) -> bool {
    cfg(bus, device, function, 0) as int % 0x1_0000 != 0xFFFF
}

/// Whether a device has more than one function.
pub open spec fn multi_function(cfg: ConfigSpace, bus: u8, device: u8) -> bool {
    cfg(bus, device, 0, 0x0C) as int / 0x80_0000 % 2 == 1
}

/// The device at a function.
pub open spec fn device_at(cfg: ConfigSpace, bus: u8, device: u8, function: u8) -> PciDevice {
    device_of(
        bus,
        device,
        function,
        cfg(bus, device, function, 0),
        cfg(bus, device, function, 0x08),
    )
}

/// The devices at the functions of a device slot from number `function` on.
pub open spec fn functions_from(cfg: ConfigSpace, bus: u8, device: u8, function: int) -> Seq<
    PciDevice,
>
    decreases 8 - function,
{
    if function > 7 {
        Seq::empty()
    } else if answers(cfg, bus, device, function as u8) {
        seq![device_at(cfg, bus, device, function as u8)] + functions_from(
            cfg,
            bus,
            device,
            function + 1,
        )
    } else {
        functions_from(cfg, bus, device, function + 1)
    }
}

/// The functions of a slot besides the first.
pub open spec fn more_functions(cfg: ConfigSpace, bus: u8, device: u8) -> Seq<PciDevice> {
    if multi_function(cfg, bus, device) {
        functions_from(cfg, bus, device, 1)
    } else {
        Seq::empty()
    }
}

/// The devices of a bus from slot `device` on.
pub open spec fn slots_from(cfg: ConfigSpace, bus: u8, device: int) -> Seq<PciDevice>
    decreases 32 - device,
{
    if device > 31 {
        Seq::empty()
    } else if answers(cfg, bus, device as u8, 0) {
        seq![device_at(cfg, bus, device as u8, 0)] + (more_functions(cfg, bus, device as u8)
            + slots_from(cfg, bus, device + 1))
    } else {
        slots_from(cfg, bus, device + 1)
    }
}

/// The devices from bus number `bus` on. A bus counts only if its first slot answers.
pub open spec fn buses_from(cfg: ConfigSpace, bus: int) -> Seq<PciDevice>
    decreases 256 - bus,
{
    if bus > 255 {
        Seq::empty()
    } else if cfg(bus as u8, 0, 0, 0) == 0xFFFF_FFFF {
        buses_from(cfg, bus + 1)
    } else {
        slots_from(cfg, bus as u8, 0) + buses_from(cfg, bus + 1)
    }
}

/// As many devices as are remembered.
pub open spec fn remembered(s: Seq<PciDevice>) -> Seq<PciDevice> {
    if s.len() <= MAX_DEVICES {
        s
    } else {
        s.take(MAX_DEVICES as int)
    }
}

/// Which register the scan waits for.
#[derive(Debug, Clone, Copy, PartialEq, Eq, Structural)]
pub enum Scan {
    /// Whether there is anything on the bus.
    Bus { bus: u8 },
    /// Whether there is anything in the slot.
    Slot { bus: u8, device: u8 },
    /// The identification of a function.
    Id { bus: u8, device: u8, function: u8 },
    /// The class of a function.
    Class { bus: u8, device: u8, function: u8, id: u32 },
    /// Whether the device has more functions.
    Header { bus: u8, device: u8 },
    /// Whether there is anything at a further function.
    Function { bus: u8, device: u8, function: u8 },
    /// The scan is over.
    Done,
}

/// A register of the configuration space.
#[derive(Debug, Clone, Copy, PartialEq, Eq, Structural)]
pub struct Register {
    pub bus: u8,
    pub device: u8,
    pub function: u8,
    pub offset: u8,
}

impl Scan {
    pub open spec fn wf(self) -> bool {
        match self {
            Scan::Bus { bus } => true,
            Scan::Slot { bus, device } => device < 32,
            Scan::Id { bus, device, function } => device < 32 && function < 8,
            Scan::Class { bus, device, function, id } => device < 32 && function < 8,
            Scan::Header { bus, device } => device < 32,
            Scan::Function { bus, device, function } => device < 32 && 1 <= function < 8,
            Scan::Done => true,
        }
    }

    /// The register that is waited for.
    pub open spec fn register(self) -> Option<Register> {
        match self {
            Scan::Bus { bus } => Some(Register { bus, device: 0, function: 0, offset: 0 }),
            Scan::Slot { bus, device } => Some(Register { bus, device, function: 0, offset: 0 }),
            Scan::Id { bus, device, function } => Some(
                Register { bus, device, function, offset: 0 },
            ),
            Scan::Class { bus, device, function, id } => Some(
                Register { bus, device, function, offset: 0x08 },
            ),
            Scan::Header { bus, device } => Some(
                Register { bus, device, function: 0, offset: 0x0C },
            ),
            Scan::Function { bus, device, function } => Some(
                Register { bus, device, function, offset: 0 },
            ),
            Scan::Done => None,
        }
    }

    /// The value of that register.
    pub open spec fn value(self, cfg: ConfigSpace) -> u32 {
        let r = self.register()->0;
        cfg(r.bus, r.device, r.function, r.offset)
    }

    /// The devices that are still to be found.
    pub open spec fn rest(self, cfg: ConfigSpace) -> Seq<PciDevice> {
        match self {
            Scan::Bus { bus } => buses_from(cfg, bus as int),
            Scan::Slot { bus, device } => slots_from(cfg, bus, device as int) + buses_from(
                cfg,
                bus + 1,
            ),
            Scan::Id { bus, device, function } => seq![device_at(cfg, bus, device, function)]
                + Scan::after(cfg, bus, device, function),
            Scan::Class { bus, device, function, id } => seq![
                device_of(bus, device, function, id, cfg(bus, device, function, 0x08)),
            ] + Scan::after(cfg, bus, device, function),
            Scan::Header { bus, device } => Scan::after(cfg, bus, device, 0),
            Scan::Function { bus, device, function } => functions_from(
                cfg,
                bus,
                device,
                function as int,
            ) + (slots_from(cfg, bus, device + 1) + buses_from(cfg, bus + 1)),
            Scan::Done => Seq::empty(),
        }
    }

    /// The devices that follow a function.
    pub open spec fn after(cfg: ConfigSpace, bus: u8, device: u8, function: u8) -> Seq<PciDevice> {
        let tail = slots_from(cfg, bus, device + 1) + buses_from(cfg, bus + 1);
        if function == 0 {
            more_functions(cfg, bus, device) + tail
        } else {
            functions_from(cfg, bus, device, function + 1) + tail
        }
    }

    /// How many registers can still be waited for, at most.
    pub open spec fn left(self) -> int {
        match self {
            Scan::Bus { bus } => (256 - bus) * 2000,
            Scan::Slot { bus, device } => (255 - bus) * 2000 + (32 - device) * 40,
            Scan::Id { bus, device, function } => (255 - bus) * 2000 + (31 - device) * 40 + (8
                - function) * 4 + 2,
            Scan::Class { bus, device, function, id } => (255 - bus) * 2000 + (31 - device) * 40 + (
            8 - function) * 4 + 1,
            Scan::Header { bus, device } => (255 - bus) * 2000 + (31 - device) * 40 + 32,
            Scan::Function { bus, device, function } => (255 - bus) * 2000 + (31 - device) * 40 + (8
                - function) * 4 + 3,
            Scan::Done => 0,
        }
    }
}

/// The devices found, and where the scan is.
pub struct PciTable {
    devices: Vec<PciDevice>,
    scan: Scan,
}

/// The scan after a slot.
fn next_slot(bus: u8, device: u8) -> (s: Scan)
    requires
        device < 32,
    ensures
        s.wf(),
        0 <= s.left() <= (255 - bus) * 2000 + (31 - device) * 40,
        forall|cfg: ConfigSpace| #[trigger]
            s.rest(cfg) == slots_from(cfg, bus, device + 1) + buses_from(cfg, bus + 1),
{
    if device < 31 {
        Scan::Slot { bus, device: device + 1 }
    } else {
        proof {
            assert forall|cfg: ConfigSpace| slots_from(cfg, bus, device + 1) + #[trigger] buses_from(
                cfg,
                bus + 1,
            ) == buses_from(cfg, bus + 1) by {
                assert(slots_from(cfg, bus, device + 1) =~= Seq::empty());
                assert(Seq::<PciDevice>::empty() + buses_from(cfg, bus + 1) =~= buses_from(
                    cfg,
                    bus + 1,
                ));
            }
        }
        next_bus(bus)
    }
}

/// The scan after a bus.
fn next_bus(bus: u8) -> (s: Scan)
    ensures
        s.wf(),
        0 <= s.left() <= (255 - bus) * 2000,
        forall|cfg: ConfigSpace| #[trigger] s.rest(cfg) == buses_from(cfg, bus + 1),
{
    if bus < 255 {
        Scan::Bus { bus: bus + 1 }
    } else {
        Scan::Done
    }
}

/// The scan after a function other than the first.
fn next_function(bus: u8, device: u8, function: u8) -> (s: Scan)
    requires
        device < 32,
        1 <= function < 8,
    ensures
        s.wf(),
        0 <= s.left() <= (255 - bus) * 2000 + (31 - device) * 40 + (7 - function) * 4 + 3,
        forall|cfg: ConfigSpace| #[trigger]
            s.rest(cfg) == functions_from(cfg, bus, device, function + 1) + (slots_from(
                cfg,
                bus,
                device + 1,
            ) + buses_from(cfg, bus + 1)),
{
    if function < 7 {
        Scan::Function { bus, device, function: function + 1 }
    } else {
        proof {
            assert forall|cfg: ConfigSpace|
                functions_from(cfg, bus, device, function + 1) + (slots_from(cfg, bus, device + 1)
                    + #[trigger] buses_from(cfg, bus + 1)) == slots_from(cfg, bus, device + 1)
                    + buses_from(cfg, bus + 1) by {
                let tail = slots_from(cfg, bus, device + 1) + buses_from(cfg, bus + 1);
                assert(functions_from(cfg, bus, device, function + 1) =~= Seq::empty());
                assert(Seq::<PciDevice>::empty() + tail =~= tail);
            }
        }
        next_slot(bus, device)
    }
}

impl PciTable {
    pub closed spec fn devices(&self) -> Seq<PciDevice> {
        self.devices@
    }

    pub closed spec fn scan(&self) -> Scan {
        self.scan
    }

    pub open spec fn wf(&self) -> bool {
        self.devices().len() <= MAX_DEVICES && self.scan().wf()
    }

    /// The devices found so far.
    pub fn list(&self) -> (d: &Vec<PciDevice>)
        ensures
            d@ == self.devices(),
    {
        &self.devices
    }

    /// The register to read next; none when the scan is over.
    pub fn pending(&self) -> (r: Option<Register>)
        requires
            self.wf(),
        ensures
            r == self.scan().register(),
            r matches Some(reg) ==> reg.device < 32 && reg.function < 8,
    {
        match self.scan {
            Scan::Bus { bus } => Some(Register { bus, device: 0, function: 0, offset: 0 }),
            Scan::Slot { bus, device } => Some(Register { bus, device, function: 0, offset: 0 }),
            Scan::Id { bus, device, function } => Some(
                Register { bus, device, function, offset: 0 },
            ),
            Scan::Class { bus, device, function, id } => Some(
                Register { bus, device, function, offset: 0x08 },
            ),
            Scan::Header { bus, device } => Some(
                Register { bus, device, function: 0, offset: 0x0C },
            ),
            Scan::Function { bus, device, function } => Some(
                Register { bus, device, function, offset: 0 },
            ),
            Scan::Done => None,
        }
    }

    /// Take the value of the pending register and go on. Whatever the configuration space
    /// that the value comes from, what was found and what is left to find together stay
    /// the same, and the scan comes closer to its end.
    pub fn step(&mut self, value: u32)
        requires
            old(self).wf(),
            old(self).scan() != Scan::Done,
        ensures
            final(self).wf(),
            0 <= final(self).scan().left() < old(self).scan().left(),
            forall|cfg: ConfigSpace|
                old(self).scan().value(cfg) == value ==> remembered(
                    final(self).devices() + #[trigger] final(self).scan().rest(cfg),
                ) == remembered(old(self).devices() + old(self).scan().rest(cfg)),
    {
        let ghost d0 = self.devices@;
        let ghost s0 = self.scan;
        match self.scan {
            Scan::Bus { bus } => {
                if value == 0xFFFF_FFFF {
                    self.scan = next_bus(bus);
                } else {
                    self.scan = Scan::Slot { bus, device: 0 };
                }
            },
            Scan::Slot { bus, device } => {
                if value % 0x1_0000 == 0xFFFF {
                    self.scan = next_slot(bus, device);
                } else {
                    self.scan = Scan::Id { bus, device, function: 0 };
                    proof {
                        assert forall|cfg: ConfigSpace|
                            s0.value(cfg) == value implies #[trigger] self.scan.rest(cfg)
                            == s0.rest(cfg) by {
                            let first = seq![device_at(cfg, bus, device, 0)];
                            let more = more_functions(cfg, bus, device);
                            let slots = slots_from(cfg, bus, device + 1);
                            let buses = buses_from(cfg, bus + 1);
                            assert((first + (more + slots)) + buses =~= first + (more + (slots
                                + buses)));
                        }
                    }
                }
            },
            Scan::Id { bus, device, function } => {
                self.scan = Scan::Class { bus, device, function, id: value };
            },
            Scan::Class { bus, device, function, id } => {
                let d = probe_function(bus, device, function, id, value);
                if self.devices.len() < MAX_DEVICES {
                    self.devices.push(d);
                }
                if function == 0 {
                    self.scan = Scan::Header { bus, device };
                } else {
                    self.scan = next_function(bus, device, function);
                }
                proof {
                    assert forall|cfg: ConfigSpace|
                        s0.value(cfg) == value implies remembered(
                        self.devices@ + #[trigger] self.scan.rest(cfg),
                    ) == remembered(d0 + s0.rest(cfg)) by {
                        let tail = Scan::after(cfg, bus, device, function);
                        assert(self.scan.rest(cfg) == tail);
                        assert(s0.rest(cfg) == seq![d] + tail);
                        if d0.len() < MAX_DEVICES {
                            assert(d0.push(d) + tail =~= d0 + (seq![d] + tail));
                        } else {
                            assert(remembered(d0 + tail) =~= d0);
                            assert(remembered(d0 + (seq![d] + tail)) =~= d0);
                        }
                    }
                }
            },
            Scan::Header { bus, device } => {
                if value / 0x80_0000 % 2 == 1 {
                    self.scan = Scan::Function { bus, device, function: 1 };
                } else {
                    self.scan = next_slot(bus, device);
                    proof {
                        assert forall|cfg: ConfigSpace|
                            s0.value(cfg) == value implies #[trigger] self.scan.rest(cfg)
                            == s0.rest(cfg) by {
                            let tail = slots_from(cfg, bus, device + 1) + buses_from(cfg, bus + 1);
                            assert(Seq::<PciDevice>::empty() + tail =~= tail);
                        }
                    }
                }
            },
            Scan::Function { bus, device, function } => {
                if value % 0x1_0000 != 0xFFFF {
                    self.scan = Scan::Id { bus, device, function };
                    proof {
                        assert forall|cfg: ConfigSpace|
                            s0.value(cfg) == value implies #[trigger] self.scan.rest(cfg)
                            == s0.rest(cfg) by {
                            let first = seq![device_at(cfg, bus, device, function)];
                            let more = functions_from(cfg, bus, device, function + 1);
                            let tail = slots_from(cfg, bus, device + 1) + buses_from(cfg, bus + 1);
                            assert((first + more) + tail =~= first + (more + tail));
                        }
                    }
                } else {
                    self.scan = next_function(bus, device, function);
                }
            },
            Scan::Done => {},
        }
    }
}

/// Start a scan of all buses.
pub fn init() -> (t: PciTable)
    ensures
        t.wf(),
        t.devices() == Seq::<PciDevice>::empty(),
        t.scan() == (Scan::Bus { bus: 0 }),
{
    PciTable { devices: Vec::new(), scan: Scan::Bus { bus: 0 } }
}

/// Number of display controllers found.
pub fn gpu_count(t: &PciTable) -> (n: usize)
    ensures
        n == t.devices().filter(|d: PciDevice| d.class == CLASS_DISPLAY).len(),
{
    let ghost p = |d: PciDevice| d.class == CLASS_DISPLAY;
    let mut n: usize = 0;
    let mut i: usize = 0;
    assert(t.devices@.take(0).filter(p).len() == 0) by {
        reveal(Seq::filter);
    }
    while i < t.devices.len()
        invariant
            i <= t.devices@.len(),
            n <= i,
            p == (|d: PciDevice| d.class == CLASS_DISPLAY),
            n == t.devices@.take(i as int).filter(p).len(),
        decreases t.devices@.len() - i,
    {
        proof {
            reveal(Seq::filter);
            let next = t.devices@.take(i + 1);
            assert(next.drop_last() =~= t.devices@.take(i as int));
        }
        if t.devices[i].class == CLASS_DISPLAY {
            n += 1;
        }
        i += 1;
    }
    assert(t.devices@.take(i as int) =~= t.devices@);
    n
}

/// Whether the device at `i` is the first display controller.
pub open spec fn first_display(devices: Seq<PciDevice>, i: int) -> bool {
    &&& 0 <= i < devices.len()
    &&& devices[i].class == CLASS_DISPLAY
    &&& forall|j: int| 0 <= j < i ==> (#[trigger] devices[j]).class != CLASS_DISPLAY
}

/// Find the first display controller.
pub fn find_display_device(t: &PciTable) -> (r: Option<PciDevice>)
    ensures
        match r {
            Some(d) => exists|i: int|
                #[trigger] first_display(t.devices(), i) && t.devices()[i] == d,
            None => forall|i: int| !first_display(t.devices(), i),
        },
{
    let mut i: usize = 0;
    while i < t.devices.len()
        invariant
            i <= t.devices@.len(),
            forall|j: int| 0 <= j < i ==> (#[trigger] t.devices@[j]).class != CLASS_DISPLAY,
        decreases t.devices@.len() - i,
    {
        if t.devices[i].class == CLASS_DISPLAY {
            assert(first_display(t.devices(), i as int));
            return Some(t.devices[i]);
        }
        i += 1;
    }
    None
}

/// When the scan is over, the table holds the devices of the configuration space, as many
/// as are remembered, bus by bus, slot by slot, function by function.
pub proof fn law_scan_finds_all(t: PciTable, cfg: ConfigSpace)
    requires
        t.wf(),
        t.scan() == Scan::Done,
        remembered(t.devices() + t.scan().rest(cfg)) == remembered(
            Seq::<PciDevice>::empty() + (Scan::Bus { bus: 0 }).rest(cfg),
        ),
    ensures
        t.devices() == remembered(buses_from(cfg, 0)),
{
    assert(t.devices() + Seq::<PciDevice>::empty() =~= t.devices());
    assert(Seq::<PciDevice>::empty() + buses_from(cfg, 0) =~= buses_from(cfg, 0));
}

// ---------------------------------------------------------------------------
// Base address registers
// ---------------------------------------------------------------------------

/// Decoded base address register.
#[derive(Debug, Clone, Copy, PartialEq, Eq, Structural)]
pub struct BarInfo {
    pub phys_base: u64,
    pub size: u64,
    pub is_memory: bool,
    pub is_64bit: bool,
    pub prefetchable: bool,
}

impl BarInfo {
    pub open spec fn spec_empty() -> BarInfo {
        BarInfo {
            phys_base: 0,
            size: 0,
            is_memory: false,
            is_64bit: false,
            prefetchable: false,
        }
    }

    /// A register that is not used.
    pub fn empty() -> (b: BarInfo)
        ensures
            b == BarInfo::spec_empty(),
    {
        BarInfo {
            phys_base: 0,
            size: 0,
            is_memory: false,
            is_64bit: false,
            prefetchable: false,
        }
    }
}

/// Whether a register is for memory: it holds some of the ones written to it, and its lowest
/// bit is not set.
pub open spec fn is_memory_bar(original: u32, mask: u32) -> bool {
    mask != 0 && mask != 0xFFFF_FFFF && original % 2 == 0
}

/// Whether register `i` is the low half of a 64-bit one.
pub open spec fn is_pair(original: Seq<u32>, mask: Seq<u32>, i: int) -> bool {
    i < 5 && is_memory_bar(original[i], mask[i]) && original[i] / 2 % 4 == 2
}

/// Whether register `i` stands for itself, and is not the high half of the one before.
pub open spec fn is_low(original: Seq<u32>, mask: Seq<u32>, i: int) -> bool
    decreases i,
{
    i <= 0 || !(is_low(original, mask, i - 1) && is_pair(original, mask, i - 1))
}

/// The address bits of a register.
pub open spec fn address_bits(x: u32) -> int {
    x - x % 16
}

/// The region that register `i` stands for. Its size is what the bits that cannot be written
/// leave.
pub open spec fn bar_of(original: Seq<u32>, mask: Seq<u32>, i: int) -> BarInfo {
    let prefetchable = original[i] / 8 % 2 == 1;
    if !is_low(original, mask, i) || !is_memory_bar(original[i], mask[i]) {
        BarInfo::spec_empty()
    } else if is_pair(original, mask, i) {
        let full = mask[i + 1] * 0x1_0000_0000 + address_bits(mask[i]);
        if full == 0 {
            BarInfo::spec_empty()
        } else {
            BarInfo {
                phys_base: (original[i + 1] * 0x1_0000_0000 + address_bits(original[i])) as u64,
                size: (0x1_0000_0000_0000_0000 - full) as u64,
                is_memory: true,
                is_64bit: true,
                prefetchable,
            }
        }
    } else if address_bits(mask[i]) == 0 {
        BarInfo::spec_empty()
    } else {
        BarInfo {
            phys_base: address_bits(original[i]) as u64,
            size: (0x1_0000_0000 - address_bits(mask[i])) as u64,
            is_memory: true,
            is_64bit: false,
            prefetchable,
        }
    }
}

/// Decode the base address registers of a device, from the value that each held and the
/// value that it holds after all ones were written to it.
pub fn probe_bars(original: &[u32; 6], mask: &[u32; 6]) -> (bars: [BarInfo; 6])
    ensures
        forall|i: int| 0 <= i < 6 ==> #[trigger] bars@[i] == bar_of(original@, mask@, i),
{
    let mut bars: [BarInfo; 6] = [BarInfo::empty();6];
    let mut i: usize = 0;
    while i < 6
        invariant
            i <= 6,
            bars@.len() == 6,
            original@.len() == 6,
            mask@.len() == 6,
            i < 6 ==> is_low(original@, mask@, i as int),
            forall|k: int| 0 <= k < i ==> #[trigger] bars@[k] == bar_of(original@, mask@, k),
            forall|k: int| i <= k < 6 ==> #[trigger] bars@[k] == BarInfo::spec_empty(),
        decreases 6 - i,
    {
        let o: u32 = original[i];
        let m: u32 = mask[i];
        if m == 0 || m == 0xFFFF_FFFF || o % 2 != 0 {
            i += 1;
            continue ;
        }
        let prefetchable = o / 8 % 2 == 1;
        let is_64bit = o / 2 % 4 == 2;
        if is_64bit && i < 5 {
            let full_mask: u64 = (mask[i + 1] as u64) * 0x1_0000_0000 + (m - m % 16) as u64;
            if full_mask != 0 {
                let size: u64 = u64::MAX - full_mask + 1;
                let base: u64 = (original[i + 1] as u64) * 0x1_0000_0000 + (o - o % 16) as u64;
                bars[i] =
                BarInfo {
                    phys_base: base,
                    size,
                    is_memory: true,
                    is_64bit: true,
                    prefetchable,
                };
            }
            assert(is_pair(original@, mask@, i as int));
            assert(!is_low(original@, mask@, i + 1));
            assert(is_low(original@, mask@, i + 2));
            i += 2;
        } else {
            let mem_mask: u32 = m - m % 16;
            if mem_mask != 0 {
                let size: u64 = 0x1_0000_0000 - mem_mask as u64;
                let base: u64 = (o - o % 16) as u64;
                bars[i] =
                BarInfo {
                    phys_base: base,
                    size,
                    is_memory: true,
                    is_64bit: false,
                    prefetchable,
                };
            }
            i += 1;
        }
    }
    bars
}

/// An access to the configuration space of a device.
#[derive(Debug, Clone, Copy, PartialEq, Eq, Structural)]
pub enum BarAccess {
    Read { offset: u8 },
    Write { offset: u8, value: u32 },
    /// All accesses are made.
    Done,
}

/// Probing the base address registers: the command register is saved and decoding switched
/// off, each register in turn is saved, filled with ones, read and restored, and the
/// command register is restored.
#[derive(Debug, Clone, Copy)]
pub struct BarProbe {
    n: u8,
    cmd: u32,
    original: [u32; 6],
    mask: [u32; 6],
}

/// Access number `n`, given the command register and the registers' values so far.
pub open spec fn bar_access(n: int, cmd: u32, original: Seq<u32>) -> BarAccess {
    let i = (n - 2) / 4;
    let offset = (0x10 + 4 * i) as u8;
    if n == 0 {
        BarAccess::Read { offset: 0x04 }
    } else if n == 1 {
        BarAccess::Write { offset: 0x04, value: (cmd - cmd % 4) as u32 }
    } else if n < 26 {
        if (n - 2) % 4 == 0 || (n - 2) % 4 == 2 {
            BarAccess::Read { offset }
        } else if (n - 2) % 4 == 1 {
            BarAccess::Write { offset, value: 0xFFFF_FFFF }
        } else {
            BarAccess::Write { offset, value: original[i] }
        }
    } else if n == 26 {
        BarAccess::Write { offset: 0x04, value: cmd }
    } else {
        BarAccess::Done
    }
}

impl BarProbe {
    pub closed spec fn n(&self) -> int {
        self.n as int
    }

    pub closed spec fn cmd(&self) -> u32 {
        self.cmd
    }

    pub closed spec fn original(&self) -> Seq<u32> {
        self.original@
    }

    pub closed spec fn mask(&self) -> Seq<u32> {
        self.mask@
    }

    pub open spec fn wf(&self) -> bool {
        0 <= self.n() <= 27 && self.original().len() == 6 && self.mask().len() == 6
    }

    /// No access is made, and no register known.
    pub fn new() -> (p: BarProbe)
        ensures
            p.wf(),
            p.n() == 0,
            p.cmd() == 0,
            forall|i: int| 0 <= i < 6 ==> #[trigger] p.original()[i] == 0,
            forall|i: int| 0 <= i < 6 ==> #[trigger] p.mask()[i] == 0,
    {
        BarProbe { n: 0, cmd: 0, original: [0u32;6], mask: [0u32;6] }
    }

    /// The access to make next.
    pub fn pending(&self) -> (a: BarAccess)
        requires
            self.wf(),
        ensures
            a == bar_access(self.n(), self.cmd(), self.original()),
    {
        if self.n == 0 {
            return BarAccess::Read { offset: 0x04 };
        }
        if self.n == 1 {
            return BarAccess::Write { offset: 0x04, value: self.cmd - self.cmd % 4 };
        }
        if self.n == 26 {
            return BarAccess::Write { offset: 0x04, value: self.cmd };
        }
        if self.n > 26 {
            return BarAccess::Done;
        }
        let i: u8 = (self.n - 2) / 4;
        let part: u8 = (self.n - 2) % 4;
        let offset: u8 = 0x10 + 4 * i;
        if part == 0 || part == 2 {
            BarAccess::Read { offset }
        } else if part == 1 {
            BarAccess::Write { offset, value: 0xFFFF_FFFF }
        } else {
            BarAccess::Write { offset, value: self.original[i as usize] }
        }
    }

    /// The pending access is made; `value` is what a read gave.
    pub fn step(&mut self, value: u32)
        requires
            old(self).wf(),
            old(self).n() < 27,
        ensures
            final(self).wf(),
            final(self).n() == old(self).n() + 1,
            final(self).cmd() == (if old(self).n() == 0 {
                value
            } else {
                old(self).cmd()
            }),
            ({
                let n = old(self).n();
                let i = (n - 2) / 4;
                &&& final(self).original() == (if 2 <= n < 26 && (n - 2) % 4 == 0 {
                    old(self).original().update(i, value)
                } else {
                    old(self).original()
                })
                &&& final(self).mask() == (if 2 <= n < 26 && (n - 2) % 4 == 2 {
                    old(self).mask().update(i, value)
                } else {
                    old(self).mask()
                })
            }),
    {
        if self.n == 0 {
            self.cmd = value;
        } else if self.n >= 2 && self.n < 26 {
            let i: usize = ((self.n - 2) / 4) as usize;
            let part: u8 = (self.n - 2) % 4;
            if part == 0 {
                self.original[i] = value;
            } else if part == 2 {
                self.mask[i] = value;
            }
        }
        self.n = self.n + 1;
    }

    /// The decoded registers, when all accesses are made.
    pub fn bars(&self) -> (bars: [BarInfo; 6])
        requires
            self.wf(),
        ensures
            forall|i: int|
                0 <= i < 6 ==> #[trigger] bars@[i] == bar_of(self.original(), self.mask(), i),
    {
        probe_bars(&self.original, &self.mask)
    }
}

// ---------------------------------------------------------------------------
// Laws
// ---------------------------------------------------------------------------

/// Probing leaves the device as it was: the last value written to each base address
/// register is the one it held, and the last to the command register too. Nothing else is
/// written.
pub proof fn law_probe_restores(n: int, cmd: u32, original: Seq<u32>)
    requires
        0 <= n < 27,
        original.len() == 6,
    ensures
        bar_access(n, cmd, original) matches BarAccess::Write { offset, value } ==> {
            ||| offset == 0x04 && (n == 26 && value == cmd || n == 1)
            ||| exists|i: int|
                0 <= i < 6 && offset == #[trigger] (0x10 + 4 * i) && ((n == 4 * i + 5 && value
                    == original[i]) || n == 4 * i + 3)
        },
{
    let i = (n - 2) / 4;
    if 2 <= n < 26 {
        assert(0 <= i < 6);
        assert(0x10 + 4 * i == 0x10 + 4 * ((n - 2) / 4));
    }
}

/// While registers hold all ones, decoding is off: the command register is written before
/// the first and restored after the last of them.
pub proof fn law_decoding_off_while_probing(n: int, cmd: u32, original: Seq<u32>)
    requires
        2 <= n < 26,
    ensures
        bar_access(1, cmd, original) == (BarAccess::Write {
            offset: 0x04,
            value: (cmd - cmd % 4) as u32,
        }),
        bar_access(n, cmd, original) matches BarAccess::Write { offset, value } ==> offset >= 0x10,
        bar_access(26, cmd, original) == (BarAccess::Write { offset: 0x04, value: cmd }),
{
}

/// A region whose register keeps all bits from number `k` on has a size of two to the `k`.
pub proof fn law_bar_size(original: Seq<u32>, mask: Seq<u32>, i: int, size: int)
    requires
        original.len() == 6,
        mask.len() == 6,
        0 <= i < 6,
        is_low(original, mask, i),
        !is_pair(original, mask, i),
        is_memory_bar(original[i], mask[i]),
        16 <= size < 0x1_0000_0000,
        size % 16 == 0,
        mask[i] - mask[i] % 16 == 0x1_0000_0000 - size,
    ensures
        bar_of(original, mask, i).size == size,
{
}

/// Whether there is a device at the function: its bus counts, as its first function gives
/// anything but ones, function 0 of its slot answers, and it is that function or one that
/// answers in a slot whose header type, bits 16 to 23 of the register at 0x0C, has bit 7 set.
/// A function answers that does not give ones as its vendor, bits 0 to 15 of its first
/// register.
pub open spec fn is_there(cfg: ConfigSpace, bus: u8, device: u8, function: u8) -> bool {
    &&& device < 32
    &&& function < 8
    &&& cfg(bus, 0, 0, 0) != 0xFFFF_FFFF
    &&& cfg(bus, device, 0, 0) as int % 0x1_0000 != 0xFFFF
    &&& function > 0 ==> cfg(bus, device, 0, 0x0C) as int / 0x80_0000 % 2 == 1 && cfg(
        bus,
        device,
        function,
        0,
    ) as int % 0x1_0000 != 0xFFFF
}

/// Whether the entry describes the function: vendor and device in the low and high half of
/// its first register, class and subclass in bits 24 to 31 and 16 to 23 of the one at 8.
pub open spec fn describes(cfg: ConfigSpace, d: PciDevice) -> bool {
    let id = cfg(d.bus, d.device, d.function, 0);
    let class = cfg(d.bus, d.device, d.function, 8);
    &&& id == d.vendor_id + 0x1_0000 * d.device_id
    &&& class as int / 0x1_0000 == d.subclass + 0x100 * d.class
}

/// Where a device stands in the order of the scan.
pub open spec fn scan_order(d: PciDevice) -> int {
    256 * d.bus + 8 * d.device + d.function
}

/// Whether the list holds the devices at the functions from place `lo` to before place `hi`,
/// each once, in the order of the scan.
pub open spec fn lists(cfg: ConfigSpace, s: Seq<PciDevice>, lo: int, hi: int) -> bool {
    &&& forall|i: int|
        0 <= i < s.len() ==> lo <= scan_order(#[trigger] s[i]) < hi && is_there(
            cfg,
            s[i].bus,
            s[i].device,
            s[i].function,
        ) && describes(cfg, s[i])
    &&& forall|i: int, j: int|
        0 <= i < j < s.len() ==> scan_order(#[trigger] s[i]) < scan_order(#[trigger] s[j])
    &&& forall|b: u8, d: u8, f: u8|
        lo <= 256 * b + 8 * d + f < hi && #[trigger] is_there(cfg, b, d, f) ==> exists|i: int|
            0 <= i < s.len() && (#[trigger] s[i]).bus == b && s[i].device == d && s[i].function == f
}

proof fn lemma_lists_joined(
    cfg: ConfigSpace,
    a: Seq<PciDevice>,
    b: Seq<PciDevice>,
    lo: int,
    mid: int,
    hi: int,
)
    requires
        lists(cfg, a, lo, mid),
        lists(cfg, b, mid, hi),
        lo <= mid <= hi,
    ensures
        lists(cfg, a + b, lo, hi),
{
    let s = a + b;
    assert forall|i: int| 0 <= i < s.len() implies lo <= scan_order(#[trigger] s[i]) < hi && is_there(
        cfg,
        s[i].bus,
        s[i].device,
        s[i].function,
    ) && describes(cfg, s[i]) by {
        if i < a.len() {
            assert(s[i] == a[i]);
        } else {
            assert(s[i] == b[i - a.len()]);
        }
    }
    assert forall|i: int, j: int| 0 <= i < j < s.len() implies scan_order(#[trigger] s[i])
        < scan_order(#[trigger] s[j]) by {
        if j < a.len() {
            assert(s[i] == a[i] && s[j] == a[j]);
        } else if i >= a.len() {
            assert(s[i] == b[i - a.len()] && s[j] == b[j - a.len()]);
        } else {
            assert(s[i] == a[i] && s[j] == b[j - a.len()]);
        }
    }
    assert forall|x: u8, d: u8, f: u8|
        lo <= 256 * x + 8 * d + f < hi && #[trigger] is_there(cfg, x, d, f) implies exists|i: int|
        0 <= i < s.len() && (#[trigger] s[i]).bus == x && s[i].device == d && s[i].function == f by {
        if 256 * x + 8 * d + f < mid {
            let i = choose|i: int|
                0 <= i < a.len() && (#[trigger] a[i]).bus == x && a[i].device == d && a[i].function
                    == f;
            assert(s[i] == a[i]);
        } else {
            let i = choose|i: int|
                0 <= i < b.len() && (#[trigger] b[i]).bus == x && b[i].device == d && b[i].function
                    == f;
            assert(s[a.len() + i] == b[i]);
        }
    }
}

proof fn lemma_lists_one(cfg: ConfigSpace, bus: u8, device: u8, function: u8)
    requires
        is_there(cfg, bus, device, function),
    ensures
        ({
            let at = 256 * bus + 8 * device + function;
            lists(cfg, seq![device_at(cfg, bus, device, function)], at, at + 1)
        }),
{
    let d = device_at(cfg, bus, device, function);
    let s = seq![d];
    let at = 256 * bus + 8 * device + function;
    assert(describes(cfg, d)) by {
        let id = cfg(bus, device, function, 0);
        let class = cfg(bus, device, function, 8);
        assert(id as int == id as int % 0x1_0000 + 0x1_0000 * (id as int / 0x1_0000));
        assert(class as int / 0x1_0000 == class as int / 0x1_0000 % 0x100 + 0x100 * (class as int
            / 0x100_0000));
    }
    assert(s[0] == d);
    assert forall|b: u8, e: u8, f: u8|
        at <= 256 * b + 8 * e + f < at + 1 && #[trigger] is_there(cfg, b, e, f) implies exists|i: int|
        0 <= i < s.len() && (#[trigger] s[i]).bus == b && s[i].device == e && s[i].function == f by {
        assert(b == bus && e == device && f == function);
        assert(s[0].bus == b);
    }
}

proof fn lemma_lists_none(cfg: ConfigSpace, lo: int, hi: int)
    requires
        forall|b: u8, d: u8, f: u8|
            lo <= 256 * b + 8 * d + f < hi ==> !#[trigger] is_there(cfg, b, d, f),
    ensures
        lists(cfg, Seq::empty(), lo, hi),
{
}

proof fn lemma_functions_listed(cfg: ConfigSpace, bus: u8, device: u8, function: int)
    requires
        device < 32,
        1 <= function <= 8,
        is_there(cfg, bus, device, 0),
        multi_function(cfg, bus, device),
    ensures
        lists(
            cfg,
            functions_from(cfg, bus, device, function),
            256 * bus + 8 * device + function,
            256 * bus + 8 * device + 8,
        ),
    decreases 8 - function,
{
    let at = 256 * bus + 8 * device;
    if function < 8 {
        let f = function as u8;
        lemma_functions_listed(cfg, bus, device, function + 1);
        let rest = functions_from(cfg, bus, device, function + 1);
        if answers(cfg, bus, device, f) {
            lemma_lists_one(cfg, bus, device, f);
            lemma_lists_joined(
                cfg,
                seq![device_at(cfg, bus, device, f)],
                rest,
                at + function,
                at + function + 1,
                at + 8,
            );
        } else {
            assert forall|b: u8, d: u8, g: u8|
                at + function <= 256 * b + 8 * d + g < at + function + 1 implies !#[trigger] is_there(
                cfg,
                b,
                d,
                g,
            ) by {
                if is_there(cfg, b, d, g) {
                    assert(b == bus && d == device && g == f);
                }
            }
            lemma_lists_none(cfg, at + function, at + function + 1);
            lemma_lists_joined(
                cfg,
                Seq::empty(),
                rest,
                at + function,
                at + function + 1,
                at + 8,
            );
            assert(Seq::<PciDevice>::empty() + rest =~= rest);
        }
    } else {
        lemma_lists_none(cfg, at + 8, at + 8);
    }
}

proof fn lemma_slots_listed(cfg: ConfigSpace, bus: u8, device: int)
    requires
        0 <= device <= 32,
        cfg(bus, 0, 0, 0) != 0xFFFF_FFFF,
    ensures
        lists(
            cfg,
            slots_from(cfg, bus, device),
            256 * bus + 8 * device,
            256 * bus + 256,
        ),
    decreases 32 - device,
{
    let at = 256 * bus + 8 * device;
    let end = 256 * bus + 256;
    if device < 32 {
        let d = device as u8;
        lemma_slots_listed(cfg, bus, device + 1);
        let rest = slots_from(cfg, bus, device + 1);
        let none = Seq::<PciDevice>::empty();
        if answers(cfg, bus, d, 0) {
            lemma_lists_one(cfg, bus, d, 0);
            let more = more_functions(cfg, bus, d);
            if multi_function(cfg, bus, d) {
                lemma_functions_listed(cfg, bus, d, 1);
            } else {
                assert forall|b: u8, e: u8, g: u8|
                    at + 1 <= 256 * b + 8 * e + g < at + 8 implies !#[trigger] is_there(
                    cfg,
                    b,
                    e,
                    g,
                ) by {
                    if is_there(cfg, b, e, g) {
                        assert(b == bus && e == d && g > 0);
                    }
                }
                lemma_lists_none(cfg, at + 1, at + 8);
            }
            lemma_lists_joined(cfg, more, rest, at + 1, at + 8, end);
            lemma_lists_joined(
                cfg,
                seq![device_at(cfg, bus, d, 0)],
                more + rest,
                at,
                at + 1,
                end,
            );
        } else {
            assert forall|b: u8, e: u8, g: u8|
                at <= 256 * b + 8 * e + g < at + 8 implies !#[trigger] is_there(cfg, b, e, g) by {
                if is_there(cfg, b, e, g) {
                    assert(b == bus && e == d);
                }
            }
            lemma_lists_none(cfg, at, at + 8);
            lemma_lists_joined(cfg, none, rest, at, at + 8, end);
            assert(none + rest =~= rest);
        }
    } else {
        lemma_lists_none(cfg, end, end);
    }
}

/// The scan finds every device once and nothing else, bus by bus, slot by slot and function
/// by function.
pub proof fn law_every_device_listed(cfg: ConfigSpace, bus: int)
    requires
        0 <= bus <= 256,
    ensures
        lists(cfg, buses_from(cfg, bus), 256 * bus, 0x1_0000),
    decreases 256 - bus,
{
    if bus < 256 {
        let b = bus as u8;
        let at = 256 * bus;
        law_every_device_listed(cfg, bus + 1);
        let rest = buses_from(cfg, bus + 1);
        let none = Seq::<PciDevice>::empty();
        if cfg(b, 0, 0, 0) == 0xFFFF_FFFF {
            assert forall|x: u8, d: u8, f: u8|
                at <= 256 * x + 8 * d + f < at + 256 implies !#[trigger] is_there(cfg, x, d, f) by {
                if is_there(cfg, x, d, f) {
                    assert(x == b);
                }
            }
            lemma_lists_none(cfg, at, at + 256);
            lemma_lists_joined(cfg, none, rest, at, at + 256, 0x1_0000);
            assert(none + rest =~= rest);
        } else {
            lemma_slots_listed(cfg, b, 0);
            lemma_lists_joined(cfg, slots_from(cfg, b, 0), rest, at, at + 256, 0x1_0000);
        }
    } else {
        lemma_lists_none(cfg, 0x1_0000, 0x1_0000);
    }
}

/// As many devices are remembered as there are, up to 64: the first ones.
pub proof fn law_first_devices_kept(s: Seq<PciDevice>, i: int)
    requires
        0 <= i < s.len(),
        i < 64,
    ensures
        remembered(s).len() == (if s.len() <= 64 {
            s.len() as int
        } else {
            64
        }),
        remembered(s)[i] == s[i],
{
}

/// A register for memory: the lowest bit is clear, and it keeps some of the ones written to
/// it. Bits 1 and 2 say whether the next register holds the high half, bit 3 whether it may be
/// prefetched, and the bits from 4 on are the address. The size is two to the number of low
/// address bits that do not keep a one.
pub proof fn law_bar_by_bits(original: Seq<u32>, mask: Seq<u32>, i: int)
    requires
        original.len() == 6,
        mask.len() == 6,
        0 <= i < 6,
        is_low(original, mask, i),
        original[i] as int % 2 == 0,
        mask[i] != 0,
        mask[i] != 0xFFFF_FFFF,
    ensures
        ({
            let b = bar_of(original, mask, i);
            let low = original[i] as int - original[i] as int % 16;
            let kept = mask[i] as int - mask[i] as int % 16;
            if i < 5 && original[i] as int / 2 % 4 == 2 {
                let ones = kept + 0x1_0000_0000 * mask[i + 1];
                &&& ones > 0 ==> b.is_memory && b.is_64bit && b.size + ones
                    == 0x1_0000_0000_0000_0000
                &&& ones > 0 ==> b.phys_base == low + 0x1_0000_0000 * original[i + 1]
                &&& ones > 0 ==> b.prefetchable == (original[i] as int / 8 % 2 == 1)
                &&& ones == 0 ==> b.size == 0 && !b.is_memory
            } else {
                &&& kept > 0 ==> b.is_memory && !b.is_64bit && b.size + kept == 0x1_0000_0000
                &&& kept > 0 ==> b.phys_base == low
                &&& kept > 0 ==> b.prefetchable == (original[i] as int / 8 % 2 == 1)
                &&& kept == 0 ==> b.size == 0 && !b.is_memory
            }
        }),
{
}

/// A register for ports, one that keeps nothing or everything, and the high half of another
/// one stand for no memory.
pub proof fn law_no_bar(original: Seq<u32>, mask: Seq<u32>, i: int)
    requires
        original.len() == 6,
        mask.len() == 6,
        0 <= i < 6,
        original[i] as int % 2 == 1 || mask[i] == 0 || mask[i] == 0xFFFF_FFFF || !is_low(
            original,
            mask,
            i,
        ),
    ensures
        bar_of(original, mask, i).size == 0,
        !bar_of(original, mask, i).is_memory,
{
}

/// A register is the high half of the one before it exactly where that one is for memory,
/// says so in its bits 1 and 2, and is no high half itself.
pub proof fn law_high_halves(original: Seq<u32>, mask: Seq<u32>, i: int)
    requires
        original.len() == 6,
        mask.len() == 6,
        0 <= i < 5,
    ensures
        is_low(original, mask, 0),
        !is_low(original, mask, i + 1) <==> is_low(original, mask, i) && original[i] as int / 2 % 4
            == 2 && original[i] as int % 2 == 0 && mask[i] != 0 && mask[i] != 0xFFFF_FFFF,
{
}

} // verus!
