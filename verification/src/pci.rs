//! PCI enumeration: decoding config space, BAR sizing and the device list.
//!
//! Config space is read and written outside, through the address/data port
//! pair; this module says which registers to read, which BARs to size, and what
//! the values mean.
use crate::text::{dec, hex, push_dec, push_hex_padded, zero_padded};
use vstd::prelude::*;

verus! {

/// Vendor id of an absent function.
pub const VENDOR_NONE: u16 = 0xFFFF;
/// Base class of display controllers.
pub const CLASS_DISPLAY: u8 = 0x03;
/// Size of a present BAR that was not sized.
pub const UNSIZED: u32 = 0xFFFF_FFFF;

/// One decoded BAR: port or memory, base, size in bytes (0 = absent).
pub type Bar = (bool, u32, u32);

/// One PCI function found on the bus.
#[derive(Clone, Copy, Debug)]
pub struct PciFunction {
    pub bus: u8,
    pub device: u8,
    pub function: u8,
    pub vendor_id: u16,
    pub device_id: u16,
    pub class: u8,
    pub subclass: u8,
    pub prog_if: u8,
    pub bars: [Bar; 6],
}

// ---------------------------------------------------------------------------
// Config space
// ---------------------------------------------------------------------------

/// The config address of a register: enable bit, bus, device, function, and the
/// offset rounded down to a 32-bit register.
pub open spec fn config_addr_spec(bus: u8, device: u8, function: u8, offset: u8) -> int {
    0x8000_0000 + 0x1_0000 * bus + 0x800 * device + 0x100 * function + (offset - offset % 4)
}

/// The value for the address port.
pub fn config_addr(bus: u8, device: u8, function: u8, offset: u8) -> (r: u32)
    requires
        device < 32,
        function < 8,
    ensures
        r == config_addr_spec(bus, device, function, offset),
{
    0x8000_0000 + 0x1_0000 * (bus as u32) + 0x800 * (device as u32) + 0x100 * (function as u32) + (
    offset - offset % 4) as u32
}

/// Different registers have different addresses.
pub proof fn law_config_addr_injective(
    b1: u8,
    d1: u8,
    f1: u8,
    o1: u8,
    b2: u8,
    d2: u8,
    f2: u8,
    o2: u8,
)
    requires
        d1 < 32,
        d2 < 32,
        f1 < 8,
        f2 < 8,
        config_addr_spec(b1, d1, f1, o1) == config_addr_spec(b2, d2, f2, o2),
    ensures
        b1 == b2,
        d1 == d2,
        f1 == f2,
        o1 / 4 == o2 / 4,
{
}

/// The byte of a 32-bit register at its offset.
pub fn config_byte(reg: u32, offset: u8) -> (r: u8)
    ensures
        r == (match offset % 4 {
            0u8 => reg % 0x100,
            1u8 => reg / 0x100 % 0x100,
            2u8 => reg / 0x1_0000 % 0x100,
            _ => reg / 0x100_0000,
        }),
{
    match offset % 4 {
        0 => (reg % 0x100) as u8,
        1 => (reg / 0x100 % 0x100) as u8,
        2 => (reg / 0x1_0000 % 0x100) as u8,
        _ => (reg / 0x100_0000) as u8,
    }
}

/// The 16-bit half of a 32-bit register at its offset.
pub fn config_word(reg: u32, offset: u8) -> (r: u16)
    ensures
        r == if offset / 2 % 2 == 0 {
            reg % 0x1_0000
        } else {
            reg / 0x1_0000
        },
{
    if offset / 2 % 2 == 0 {
        (reg % 0x1_0000) as u16
    } else {
        (reg / 0x1_0000) as u16
    }
}

/// The registers of one function: its first sixteen, and for each BAR what it
/// read after all ones were written to it (0 where that was not done).
pub struct FunctionRegs {
    pub words: Vec<u32>,
    pub masks: Vec<u32>,
}

impl FunctionRegs {
    pub open spec fn wf(&self) -> bool {
        self.words@.len() == 16 && self.masks@.len() == 6
    }
}

/// The registers read of one device.
pub struct DeviceRegs {
    pub bus: u8,
    pub device: u8,
    pub functions: Vec<FunctionRegs>,
}

/// Functions to look at behind a device whose function 0 answers `reg0` and
/// `reg3`: none, one, or eight where the multi-function bit is set.
pub open spec fn function_count(reg0: u32, reg3: u32) -> int {
    if reg0 % 0x1_0000 == 0xFFFF {
        0
    } else if reg3 / 0x80_0000 % 2 == 1 {
        8
    } else {
        1
    }
}

/// Functions to look at behind a device.
pub fn device_functions(reg0: u32, reg3: u32) -> (r: u8)
    ensures
        r == function_count(reg0, reg3),
{
    if reg0 % 0x1_0000 == 0xFFFF {
        0
    } else if reg3 / 0x80_0000 % 2 == 1 {
        8
    } else {
        1
    }
}

/// A BAR as found: its low twelve bits dropped, its size unknown.
pub open spec fn found_bar(raw: u32) -> Bar {
    if raw >= 4 {
        (raw % 2 == 1, (raw - raw % 0x1000) as u32, UNSIZED)
    } else {
        (false, 0, 0)
    }
}

/// Only a display's 32-bit memory BARs are sized: writing to a port BAR could
/// disturb a live device.
pub open spec fn sizable(class: u8, raw: u32) -> bool {
    class == CLASS_DISPLAY && raw >= 4 && raw % 2 == 0 && raw / 2 % 4 != 2
}

/// The size that a mask stands for: its address bits negated, 0 for none.
pub open spec fn mask_size(mask: u32) -> int {
    let bits = mask - mask % 16;
    if bits == 0 {
        0
    } else {
        0x1_0000_0000 - bits
    }
}

/// A BAR with its size, where it was sized.
pub open spec fn sized_bar(class: u8, raw: u32, mask: u32) -> Bar {
    let b = found_bar(raw);
    if sizable(class, raw) && mask_size(mask) != 0 {
        (b.0, b.1, mask_size(mask) as u32)
    } else {
        b
    }
}

/// Should BAR `raw` of a function of this class be sized? Not with interrupts
/// on: the two-step port access must not be interrupted.
pub fn should_size(class: u8, raw: u32, interrupts_on: bool) -> (r: bool)
    ensures
        r == (sizable(class, raw) && !interrupts_on),
{
    class == CLASS_DISPLAY && raw >= 4 && raw % 2 == 0 && raw / 2 % 4 != 2 && !interrupts_on
}

/// The size of a BAR from the value read back after writing all ones.
pub fn size_bar(mask: u32) -> (r: u32)
    ensures
        r == mask_size(mask),
{
    let bits = mask - mask % 16;
    if bits == 0 {
        0
    } else {
        (0x1_0000_0000u64 - bits as u64) as u32
    }
}

/// A power-of-two region of at least 16 bytes reads back its size.
pub proof fn law_size_of_region(size: u32)
    requires
        size >= 16,
        size % 16 == 0,
    ensures
        mask_size((0x1_0000_0000 - size) as u32) == size,
{
}

/// The function that the registers describe.
pub open spec fn decoded(f: PciFunction, bus: u8, device: u8, function: u8, r: FunctionRegs) -> bool {
    let w = r.words@;
    &&& f.bus == bus
    &&& f.device == device
    &&& f.function == function
    &&& f.vendor_id == w[0] % 0x1_0000
    &&& f.device_id == w[0] / 0x1_0000
    &&& f.class == w[2] / 0x100_0000
    &&& f.subclass == w[2] / 0x1_0000 % 0x100
    &&& f.prog_if == w[2] / 0x100 % 0x100
    &&& forall|i: int|
        0 <= i < 6 ==> #[trigger] f.bars@[i] == sized_bar(
            (w[2] / 0x100_0000) as u8,
            w[4 + i],
            r.masks@[i],
        )
}

/// Decode one function's registers.
pub fn decode_function(bus: u8, device: u8, function: u8, r: &FunctionRegs) -> (f: PciFunction)
    requires
        r.wf(),
    ensures
        decoded(f, bus, device, function, *r),
{
    let class_rev = r.words[2];
    let class = (class_rev / 0x100_0000) as u8;
    let mut bars: [Bar; 6] = [(false, 0u32, 0u32);6];
    let mut i: usize = 0;
    while i < 6
        invariant
            i <= 6,
            r.wf(),
            class == r.words@[2] / 0x100_0000,
            forall|k: int|
                0 <= k < i ==> #[trigger] bars@[k] == sized_bar(class, r.words@[4 + k], r.masks@[k]),
        decreases 6 - i,
    {
        let raw = r.words[4 + i];
        if raw >= 4 {
            let mut size = UNSIZED;
            if should_size(class, raw, false) {
                let s = size_bar(r.masks[i]);
                if s != 0 {
                    size = s;
                }
            }
            bars[i] = (raw % 2 == 1, raw - raw % 0x1000, size);
        } else {
            bars[i] = (false, 0, 0);
        }
        i += 1;
    }
    PciFunction {
        bus,
        device,
        function,
        vendor_id: config_word(r.words[0], 0),
        device_id: config_word(r.words[0], 2),
        class,
        subclass: config_byte(class_rev, 2),
        prog_if: config_byte(class_rev, 1),
        bars,
    }
}

/// The registers of enough functions were read: of the first, and of all eight
/// where it says there are eight.
pub open spec fn device_wf(d: DeviceRegs) -> bool {
    &&& d.functions@.len() >= 1
    &&& forall|k: int| 0 <= k < d.functions@.len() ==> (#[trigger] d.functions@[k]).wf()
    &&& function_count(d.functions@[0].words@[0], d.functions@[0].words@[3]) <= d.functions@.len()
}

/// The places, device and function, where something answers among the first
/// `n` functions of device `d`.
pub open spec fn present_functions(d: DeviceRegs, n: int) -> Seq<int>
    decreases n,
{
    if n <= 0 {
        Seq::empty()
    } else if d.functions@[n - 1].words@[0] % 0x1_0000 != 0xFFFF {
        present_functions(d, n - 1).push(n - 1)
    } else {
        present_functions(d, n - 1)
    }
}

/// The functions that answer behind the first `n` devices, in scan order, as
/// (device index, function).
pub open spec fn present(ds: Seq<DeviceRegs>, n: int) -> Seq<(int, int)>
    decreases n,
{
    if n <= 0 {
        Seq::empty()
    } else {
        let d = ds[n - 1];
        let k = function_count(d.functions@[0].words@[0], d.functions@[0].words@[3]);
        present(ds, n - 1) + present_functions(d, k).map_values(|f: int| (n - 1, f))
    }
}

/// `out` decodes the functions at the places `ps`, in order.
pub open spec fn lists(out: Seq<PciFunction>, ds: Seq<DeviceRegs>, ps: Seq<(int, int)>) -> bool {
    &&& out.len() == ps.len()
    &&& forall|k: int|
        0 <= k < ps.len() ==> {
            let d = ds[(#[trigger] ps[k]).0];
            decoded(out[k], d.bus, d.device, ps[k].1 as u8, d.functions@[ps[k].1])
        }
}

/// Every function on the bus, from the registers of every device.
pub fn enumerate(ds: &Vec<DeviceRegs>) -> (r: Vec<PciFunction>)
    requires
        forall|k: int| 0 <= k < ds@.len() ==> device_wf(#[trigger] ds@[k]),
    ensures
        lists(r@, ds@, present(ds@, ds@.len() as int)),
{
    let mut out: Vec<PciFunction> = Vec::new();
    let mut n: usize = 0;
    while n < ds.len()
        invariant
            n <= ds@.len(),
            forall|k: int| 0 <= k < ds@.len() ==> device_wf(#[trigger] ds@[k]),
            lists(out@, ds@, present(ds@, n as int)),
        decreases ds@.len() - n,
    {
        let d = &ds[n];
        assert(device_wf(ds@[n as int]));
        let count = device_functions(d.functions[0].words[0], d.functions[0].words[3]) as usize;
        let ghost before = present(ds@, n as int);
        let mut f: usize = 0;
        assert(before + present_functions(*d, 0).map_values(|f: int| (n as int, f)) =~= before);
        while f < count
            invariant
                n < ds@.len(),
                *d == ds@[n as int],
                device_wf(*d),
                f <= count <= 8,
                count == function_count(
                    d.functions@[0].words@[0],
                    d.functions@[0].words@[3],
                ),
                before == present(ds@, n as int),
                lists(
                    out@,
                    ds@,
                    before + present_functions(*d, f as int).map_values(|f: int| (n as int, f)),
                ),
            decreases count - f,
        {
            assert(d.functions@[f as int].wf());
            let r = &d.functions[f];
            let ghost ps = before + present_functions(*d, f as int).map_values(
                |f: int| (n as int, f),
            );
            if config_word(r.words[0], 0) != VENDOR_NONE {
                let x = decode_function(d.bus, d.device, f as u8, r);
                out.push(x);
                proof {
                    let ps2 = before + present_functions(*d, f + 1).map_values(
                        |f: int| (n as int, f),
                    );
                    assert(ps2 =~= ps.push((n as int, f as int)));
                    assert forall|k: int| 0 <= k < ps2.len() implies ({
                        let d = ds@[(#[trigger] ps2[k]).0];
                        decoded(out@[k], d.bus, d.device, ps2[k].1 as u8, d.functions@[ps2[k].1])
                    }) by {
                        if k < ps.len() {
                            assert(ps[k] == ps2[k]);
                        }
                    }
                }
            } else {
                assert(before + present_functions(*d, f + 1).map_values(|f: int| (n as int, f))
                    =~= ps);
            }
            f += 1;
        }
        n += 1;
    }
    out
}

/// The base of a BAR as config space has it now: 0 for a BAR that does not
/// exist or while interrupts are on; port BARs are aligned to 4, memory BARs
/// to 16.
pub fn read_bar_base(raw: u32, index: usize, interrupts_on: bool) -> (r: u32)
    ensures
        r == if index > 5 || interrupts_on {
            0
        } else if raw % 2 == 1 {
            raw - raw % 4
        } else {
            raw - raw % 16
        },
{
    if index > 5 || interrupts_on {
        return 0;
    }
    if raw % 2 == 1 {
        raw - raw % 4
    } else {
        raw - raw % 16
    }
}

/// The register with the bits of `mask` set in its low half, to write back.
pub fn config_or_u16(raw: u32, mask: u16) -> (r: u32)
    ensures
        r == raw | (mask as u32),
{
    raw | (mask as u32)
}

// ---------------------------------------------------------------------------
// Names and lines
// ---------------------------------------------------------------------------

/// The class in words.
pub open spec fn class_text(class: u8, subclass: u8) -> Seq<char> {
    if class == 0x00 {
        "legacy"@
    } else if class == 0x01 {
        if subclass == 0x00 || subclass == 0x05 {
            "ide"@
        } else if subclass == 0x06 {
            "sata"@
        } else {
            "storage"@
        }
    } else if class == 0x02 {
        "network"@
    } else if class == 0x03 {
        "display"@
    } else if class == 0x04 {
        "multimedia"@
    } else if class == 0x05 {
        "memory"@
    } else if class == 0x06 {
        "bridge"@
    } else if class == 0x08 {
        "generic"@
    } else if class == 0x0C {
        if subclass == 0x03 {
            "usb"@
        } else {
            "serial-bus"@
        }
    } else {
        "other"@
    }
}

/// The device in words.
pub open spec fn device_text(vendor: u16, device: u16) -> Seq<char> {
    if vendor == 0x8086 && device == 0x1237 {
        "440fx-host-bridge"@
    } else if vendor == 0x8086 && device == 0x7000 {
        "piix3-isa"@
    } else if vendor == 0x8086 && device == 0x7010 {
        "piix3-ide"@
    } else if vendor == 0x8086 && device == 0x7113 {
        "piix4-pm"@
    } else if vendor == 0x8086 && device == 0x100E {
        "e1000"@
    } else if vendor == 0x1234 && device == 0x1111 {
        "qemu-std-vga"@
    } else if vendor == 0x1AF4 {
        "virtio"@
    } else if vendor == 0x1022 {
        "amd"@
    } else {
        "unknown"@
    }
}

/// `00:02.0`.
pub open spec fn slot_text(f: PciFunction) -> Seq<char> {
    zero_padded(hex(f.bus as nat), 2) + ":"@ + zero_padded(hex(f.device as nat), 2) + "."@ + dec(
        f.function as nat,
    )
}

/// `8086:7010 (piix3-ide)`.
pub open spec fn identify_text(f: PciFunction) -> Seq<char> {
    zero_padded(hex(f.vendor_id as nat), 4) + ":"@ + zero_padded(hex(f.device_id as nat), 4) + " ("@
        + device_text(f.vendor_id, f.device_id) + ")"@
}

/// A BAR's index and kind.
pub open spec fn bar_head(i: int, b: Bar) -> Seq<char> {
    " bar"@ + dec(i as nat) + "="@ + (if b.0 { "io"@ } else { "mem"@ }) + ": "@
}

/// A BAR's base and size.
pub open spec fn bar_range(b: Bar) -> Seq<char> {
    if b.2 == UNSIZED {
        zero_padded(hex(b.1 as nat), 8) + "/?"@
    } else if b.2 >= 0x10_0000 {
        zero_padded(hex(b.1 as nat), 8) + "/"@ + dec((b.2 / 0x10_0000) as nat) + "M"@
    } else {
        zero_padded(hex(b.1 as nat), 4) + "/"@ + dec(b.2 as nat) + "B"@
    }
}

/// One BAR of a device line; absent BARs are left out.
pub open spec fn bar_text(i: int, b: Bar) -> Seq<char> {
    if b.2 == 0 {
        Seq::empty()
    } else {
        bar_head(i, b) + bar_range(b)
    }
}

/// The first `n` BARs of a device line.
pub open spec fn bars_text(f: PciFunction, n: int) -> Seq<char>
    decreases n,
{
    if n <= 0 {
        Seq::empty()
    } else {
        bars_text(f, n - 1) + bar_text(n - 1, f.bars@[n - 1])
    }
}

/// A device line.
pub open spec fn line_text(f: PciFunction) -> Seq<char> {
    "[pci] "@ + slot_text(f) + " "@ + identify_text(f) + " class="@ + zero_padded(
        hex(f.class as nat),
        2,
    ) + zero_padded(hex(f.subclass as nat), 2) + "("@ + class_text(f.class, f.subclass) + ")"@
        + bars_text(f, 6)
}

fn device_name(vendor: u16, device: u16) -> (r: &'static str)
    ensures
        r@ == device_text(vendor, device),
{
    if vendor == 0x8086 && device == 0x1237 {
        "440fx-host-bridge"
    } else if vendor == 0x8086 && device == 0x7000 {
        "piix3-isa"
    } else if vendor == 0x8086 && device == 0x7010 {
        "piix3-ide"
    } else if vendor == 0x8086 && device == 0x7113 {
        "piix4-pm"
    } else if vendor == 0x8086 && device == 0x100E {
        "e1000"
    } else if vendor == 0x1234 && device == 0x1111 {
        "qemu-std-vga"
    } else if vendor == 0x1AF4 {
        "virtio"
    } else if vendor == 0x1022 {
        "amd"
    } else {
        "unknown"
    }
}

impl PciFunction {
    /// `00:02.0` style slot string.
    pub fn slot(&self) -> (r: String)
        ensures
            r@ == slot_text(*self),
    {
        let mut s = String::new();
        push_hex_padded(&mut s, self.bus as u64, 2);
        s.append(":");
        push_hex_padded(&mut s, self.device as u64, 2);
        s.append(".");
        push_dec(&mut s, self.function as u64);
        assert(s@ =~= slot_text(*self));
        s
    }

    /// The class in words.
    pub fn class_name(&self) -> (r: &'static str)
        ensures
            r@ == class_text(self.class, self.subclass),
    {
        match self.class {
            0x00 => "legacy",
            0x01 => match self.subclass {
                0x00 => "ide",
                0x05 => "ide",
                0x06 => "sata",
                _ => "storage",
            },
            0x02 => "network",
            0x03 => "display",
            0x04 => "multimedia",
            0x05 => "memory",
            0x06 => "bridge",
            0x08 => "generic",
            0x0C => match self.subclass {
                0x03 => "usb",
                _ => "serial-bus",
            },
            _ => "other",
        }
    }

    /// `8086:7010 (piix3-ide)` style identification.
    pub fn identify(&self) -> (r: String)
        ensures
            r@ == identify_text(*self),
    {
        let mut s = String::new();
        push_hex_padded(&mut s, self.vendor_id as u64, 4);
        s.append(":");
        push_hex_padded(&mut s, self.device_id as u64, 4);
        s.append(" (");
        s.append(device_name(self.vendor_id, self.device_id));
        s.append(")");
        assert(s@ =~= identify_text(*self));
        s
    }
}

fn bar_str(b: Bar) -> (r: String)
    ensures
        r@ == bar_range(b),
{
    let (_is_io, base, size) = b;
    let mut s = String::new();
    if size == UNSIZED {
        push_hex_padded(&mut s, base as u64, 8);
        s.append("/?");
    } else if size >= 0x10_0000 {
        push_hex_padded(&mut s, base as u64, 8);
        s.append("/");
        push_dec(&mut s, (size / 0x10_0000) as u64);
        s.append("M");
    } else {
        push_hex_padded(&mut s, base as u64, 4);
        s.append("/");
        push_dec(&mut s, size as u64);
        s.append("B");
    }
    assert(s@ =~= bar_range(b));
    s
}

fn push_bar(s: &mut String, i: usize, b: Bar)
    ensures
        final(s)@ == old(s)@ + bar_text(i as int, b),
{
    let ghost was = s@;
    if b.2 != 0 {
        s.append(" bar");
        push_dec(s, i as u64);
        s.append("=");
        s.append(if b.0 { "io" } else { "mem" });
        s.append(": ");
        assert(s@ =~= was + bar_head(i as int, b));
        let t = bar_str(b);
        s.append(t.as_str());
        assert(s@ =~= was + (bar_head(i as int, b) + bar_range(b)));
    } else {
        assert(s@ =~= was + bar_text(i as int, b));
    }
}

/// A device's line in the listing.
pub fn device_line(f: &PciFunction) -> (r: String)
    ensures
        r@ == line_text(*f),
{
    let mut s = String::from_str("[pci] ");
    let slot = f.slot();
    s.append(slot.as_str());
    s.append(" ");
    let id = f.identify();
    s.append(id.as_str());
    s.append(" class=");
    push_hex_padded(&mut s, f.class as u64, 2);
    push_hex_padded(&mut s, f.subclass as u64, 2);
    s.append("(");
    s.append(f.class_name());
    s.append(")");
    let ghost head = s@;
    let mut i: usize = 0;
    assert(s@ =~= head + bars_text(*f, 0));
    while i < 6
        invariant
            i <= 6,
            s@ == head + bars_text(*f, i as int),
        decreases 6 - i,
    {
        push_bar(&mut s, i, f.bars[i]);
        i += 1;
        assert(s@ =~= head + bars_text(*f, i as int));
    }
    assert(s@ =~= line_text(*f));
    s
}

/// The device list as text, one line each.
pub fn render_lines(devices: &Vec<PciFunction>) -> (r: Vec<String>)
    ensures
        r@.len() == devices@.len(),
        forall|i: int| 0 <= i < devices@.len() ==> (#[trigger] r@[i])@ == line_text(devices@[i]),
{
    let mut out: Vec<String> = Vec::new();
    let mut i: usize = 0;
    while i < devices.len()
        invariant
            i <= devices@.len(),
            out@.len() == i,
            forall|k: int| 0 <= k < i ==> (#[trigger] out@[k])@ == line_text(devices@[k]),
        decreases devices@.len() - i,
    {
        out.push(device_line(&devices[i]));
        i += 1;
    }
    out
}

/// Scan the bus: the device list, its lines, and the closing count line.
pub fn init(ds: &Vec<DeviceRegs>) -> (r: (Vec<PciFunction>, Vec<String>, String))
    requires
        forall|k: int| 0 <= k < ds@.len() ==> device_wf(#[trigger] ds@[k]),
    ensures
        lists(r.0@, ds@, present(ds@, ds@.len() as int)),
        r.1@.len() == r.0@.len(),
        forall|i: int| 0 <= i < r.0@.len() ==> (#[trigger] r.1@[i])@ == line_text(r.0@[i]),
        r.2@ == "[pci] "@ + dec(r.0@.len()) + " functions found"@,
{
    let devices = enumerate(ds);
    let lines = render_lines(&devices);
    let mut s = String::from_str("[pci] ");
    push_dec(&mut s, devices.len() as u64);
    s.append(" functions found");
    (devices, lines, s)
}

/// A VGA-compatible display.
pub open spec fn is_vga(f: PciFunction) -> bool {
    f.class == CLASS_DISPLAY && f.subclass == 0
}

/// `i` is the first VGA-compatible display.
pub open spec fn first_vga(ds: Seq<PciFunction>, i: int) -> bool {
    &&& 0 <= i < ds.len()
    &&& is_vga(ds[i])
    &&& forall|k: int| 0 <= k < i ==> !is_vga(#[trigger] ds[k])
}

/// `i` is the first display of any kind.
pub open spec fn first_display(ds: Seq<PciFunction>, i: int) -> bool {
    &&& 0 <= i < ds.len()
    &&& ds[i].class == CLASS_DISPLAY
    &&& forall|k: int| 0 <= k < i ==> (#[trigger] ds[k]).class != CLASS_DISPLAY
}

/// The display function to drive: the first VGA-compatible one, else the first
/// display of any kind.
pub open spec fn display_of(ds: Seq<PciFunction>) -> Option<PciFunction> {
    if exists|i: int| first_vga(ds, i) {
        Some(ds[choose|i: int| first_vga(ds, i)])
    } else if exists|i: int| first_display(ds, i) {
        Some(ds[choose|i: int| first_display(ds, i)])
    } else {
        None
    }
}

/// The display function of the machine, if it has one.
pub fn find_display(devices: &Vec<PciFunction>) -> (r: Option<PciFunction>)
    ensures
        r == display_of(devices@),
        r is None <==> forall|k: int| 0 <= k < devices@.len() ==> (#[trigger] devices@[k]).class != CLASS_DISPLAY,
{
    let mut other: Option<PciFunction> = None;
    let ghost mut at: int = 0;
    let mut i: usize = 0;
    while i < devices.len()
        invariant
            i <= devices@.len(),
            forall|k: int| 0 <= k < i ==> !is_vga(#[trigger] devices@[k]),
            other is None ==> forall|k: int|
                0 <= k < i ==> (#[trigger] devices@[k]).class != CLASS_DISPLAY,
            other matches Some(f) ==> first_display(devices@, at) && f == devices@[at],
        decreases devices@.len() - i,
    {
        let f = devices[i];
        if f.class == CLASS_DISPLAY {
            if f.subclass == 0 {
                proof {
                    assert(first_vga(devices@, i as int));
                    let j = choose|j: int| first_vga(devices@, j);
                    assert(is_vga(devices@[i as int]) && is_vga(devices@[j]));
                }
                return Some(f);
            }
            if other.is_none() {
                other = Some(f);
                proof {
                    at = i as int;
                }
            }
        }
        i += 1;
    }
    proof {
        assert forall|j: int| !first_vga(devices@, j) by {}
        if other is Some {
            let j = choose|j: int| first_display(devices@, j);
            assert(devices@[at].class == CLASS_DISPLAY && devices@[j].class == CLASS_DISPLAY);
        } else {
            assert forall|j: int| !first_display(devices@, j) by {}
        }
    }
    other
}

/// A memory BAR with a base and a known size.
pub open spec fn is_framebuffer_bar(b: Bar) -> bool {
    !b.0 && b.1 != 0 && b.2 != UNSIZED && b.2 != 0
}

/// The first framebuffer BAR from index `i` on, as index, base and size.
pub open spec fn bar_from(f: PciFunction, i: int) -> Option<(usize, u32, u32)>
    decreases 6 - i,
{
    if i < 0 || i >= 6 {
        None
    } else if is_framebuffer_bar(f.bars@[i]) {
        Some((i as usize, f.bars@[i].1, f.bars@[i].2))
    } else {
        bar_from(f, i + 1)
    }
}

/// The function's framebuffer BAR: the first memory BAR with a known size, as
/// index, base and size.
pub fn framebuffer_bar(f: &PciFunction) -> (r: Option<(usize, u32, u32)>)
    ensures
        r == bar_from(*f, 0),
        r matches Some(b) ==> b.0 < 6,
{
    let mut i: usize = 0;
    while i < 6
        invariant
            i <= 6,
            bar_from(*f, 0) == bar_from(*f, i as int),
        decreases 6 - i,
    {
        let (is_io, base, size) = f.bars[i];
        if !is_io && base != 0 && size != UNSIZED && size != 0 {
            return Some((i, base, size));
        }
        i += 1;
    }
    None
}

/// "16 MiB", "4 KiB" or "512 B".
pub open spec fn size_text(size: u32) -> Seq<char> {
    if size >= 0x10_0000 {
        dec((size / 0x10_0000) as nat) + " MiB"@
    } else if size >= 0x400 {
        dec((size / 0x400) as nat) + " KiB"@
    } else {
        dec(size as nat) + " B"@
    }
}

/// A size for log lines.
pub fn size_str(size: u32) -> (r: String)
    ensures
        r@ == size_text(size),
{
    let mut s = String::new();
    if size >= 0x10_0000 {
        push_dec(&mut s, (size / 0x10_0000) as u64);
        s.append(" MiB");
    } else if size >= 0x400 {
        push_dec(&mut s, (size / 0x400) as u64);
        s.append(" KiB");
    } else {
        push_dec(&mut s, size as u64);
        s.append(" B");
    }
    assert(s@ =~= size_text(size));
    s
}

} // verus!
