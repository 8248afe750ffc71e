//! Display bring-up: find the display device, program the kernel's mode over
//! the dispi registers, prove that its memory is where it should be, and hand
//! the console over. Every failure leaves the screen as the boot found it.
//!
//! The steps are a machine: it names the next access to the hardware, and the
//! answer to that access takes it on.
use vstd::prelude::*;

use crate::bytes::{law_le32_roundtrip, get_u32, le32, le32_bytes, put_u32, splice};
use crate::pci::{
    bar_from, class_text, display_of, find_display, framebuffer_bar, identify_text, size_str, size_text, slot_text,
    PciFunction, UNSIZED,
};
use crate::text::{dec, hex, push_dec, push_hex, push_hex_padded, zero_padded};

verus! {

/// The mode that the kernel wants.
pub const MODE_W: u64 = 1920;

pub const MODE_H: u64 = 1080;

/// Bytes of a pixel of that mode.
pub const MODE_BPP: u64 = 4;

/// Bytes of its surface.
pub const MODE_BYTES: u64 = 8294400;

/// Where the surface is mapped.
pub const FB_VADDR: u64 = 0x0000_0400_0000_0000;

/// The interface versions that the dispi ports may report.
pub const DISPI_ID_MIN: u16 = 0xB0C0;

pub const DISPI_ID_MAX: u16 = 0xB0C5;

/// The four mode registers.
#[derive(Clone, Copy, Debug, PartialEq, Eq, Structural)]
pub struct Regs {
    pub xres: u16,
    pub yres: u16,
    pub bpp: u16,
    pub enable: u16,
}

/// A mode to program.
#[derive(Clone, Copy, Debug, PartialEq, Eq, Structural)]
pub struct Want {
    pub xres: u16,
    pub yres: u16,
    pub bpp: u16,
}

/// The mode that was installed.
#[derive(Clone, Copy, Debug, PartialEq, Eq, Structural)]
pub struct GpuMode {
    /// Vendor and device of the display function.
    pub ven_dev: u32,
    pub width: u64,
    pub height: u64,
    pub bpp: u64,
    /// The BAR that holds the surface.
    pub bar_idx: usize,
    /// Base and size of that BAR as found before the mode was set.
    pub bar_base: u32,
    pub bar_size: u32,
    /// Where the surface is once the mode is set.
    pub lfb_addr: u32,
    /// The enable register as read back.
    pub enable: u16,
    /// Bytes mapped.
    pub mapped: u64,
    pub canary_expected: u32,
    pub canary_actual: u32,
}

/// Where the bring-up is: each phase waits for the answer to one access.
#[derive(Clone, Copy, Debug, PartialEq, Eq, Structural)]
pub enum Phase {
    Idle,
    Probing,
    Finding,
    Setting,
    /// A mode that is not wanted is programmed on purpose.
    Rehearsing,
    Resetting,
    Locating,
    Mapping,
    Proving,
    Adopting,
    Restoring,
    Done,
}

/// Why the bring-up gave up after it had touched the mode.
#[derive(Clone, Copy, Debug, PartialEq, Eq, Structural)]
pub enum Why {
    NotTaken,
    NoBar,
    NotMapped,
    Canary,
}

/// The bring-up and what it has found.
#[derive(Clone, Copy, Debug)]
pub struct Gpu {
    pub phase: Phase,
    pub dev: Option<PciFunction>,
    pub revision: u16,
    pub vram_64k: u16,
    /// The mode registers as the boot found them.
    pub saved: Regs,
    pub enable: u16,
    pub bar_idx: usize,
    pub cached_base: u32,
    pub bar_size: u32,
    pub lfb: u32,
    /// The checksum that the canary gave.
    pub canary: u32,
    pub why: Why,
    pub mode: Option<GpuMode>,
    /// Steps that fell back to the boot screen.
    pub fallbacks: u32,
    /// What the id register held; 0 before it was read, and where it showed no
    /// interface.
    pub dispi_id: u32,
    /// Rehearsals that the read-back check caught.
    pub rehearsals: u32,
}

/// An access that the bring-up asks for.
#[derive(Clone, Copy, Debug, PartialEq, Eq, Structural)]
pub enum Action {
    /// Read the id, revision and video memory registers.
    Probe,
    /// Read the mode registers.
    ReadMode,
    /// Disable, set the mode, enable, and read the registers back.
    SetMode(Want),
    /// Set the mode registers with the display disabled, and read them back.
    PutBack(Want),
    /// Read the base of a BAR from config space.
    ReadBar(usize),
    /// Map the surface at this physical address.
    MapSurface(u32),
    /// Write the canary and read it back.
    Canary,
    /// Hand the console over to the surface.
    Adopt,
    /// Nothing is left to do.
    Stop,
}

/// The answer to an access.
#[derive(Clone, Copy, Debug, PartialEq, Eq, Structural)]
pub enum Event {
    Probed { id: u16, revision: u16, vram_64k: u16 },
    Mode(Regs),
    Bar(u32),
    Mapped(bool),
    Canary { expected: u32, actual: u32 },
    Adopted,
}

/// The next access, and the lines for the log.
pub struct Step {
    pub action: Action,
    pub lines: Vec<String>,
}

/// The text of some lines.
pub open spec fn said(v: Seq<String>) -> Seq<Seq<char>> {
    v.map_values(|s: String| s@)
}

/// The mode that the kernel wants, in register terms.
pub open spec fn good() -> Want {
    Want { xres: 1920, yres: 1080, bpp: 32 }
}

/// The mode of the rehearsal.
pub open spec fn bogus() -> Want {
    Want { xres: 1920, yres: 1080, bpp: 16 }
}

/// The registers show the mode, live.
pub open spec fn matches(rb: Regs, want: Want) -> bool {
    rb.xres == want.xres && rb.yres == want.yres && rb.bpp == want.bpp && rb.enable % 2 == 1
}

pub open spec fn bump(n: u32) -> u32 {
    if n == u32::MAX { 0 } else { (n + 1) as u32 }
}

/// Whether a read-back proves that the device took the mode.
pub fn mode_matches(rb: Regs, want: Want) -> (r: bool)
    ensures
        r == matches(rb, want),
{
    rb.xres == want.xres && rb.yres == want.yres && rb.bpp == want.bpp && rb.enable % 2 == 1
}

// ---------------------------------------------------------------------
// Lines of the log
// ---------------------------------------------------------------------

/// "0x" and the number with at least `width` digits.
pub open spec fn hex0(n: nat, width: nat) -> Seq<char> {
    "0x"@ + zero_padded(hex(n), width)
}

/// "1920x1080x32".
pub open spec fn geometry(x: nat, y: nat, b: nat) -> Seq<char> {
    dec(x) + "x"@ + dec(y) + "x"@ + dec(b)
}

/// The four registers of a read-back.
pub open spec fn readback(rb: Regs) -> Seq<char> {
    "xres="@ + dec(rb.xres as nat) + " yres="@ + dec(rb.yres as nat) + " bpp="@ + dec(rb.bpp as nat) + " enable="@
        + dec(rb.enable as nat)
}

fn push_hex0(s: &mut String, n: u64, width: usize)
    ensures
        final(s)@ == old(s)@ + hex0(n as nat, width as nat),
{
    let ghost was = s@;
    s.append("0x");
    push_hex_padded(s, n, width);
    assert(s@ =~= was + hex0(n as nat, width as nat));
}

fn push_geometry(s: &mut String, x: u64, y: u64, b: u64)
    ensures
        final(s)@ == old(s)@ + geometry(x as nat, y as nat, b as nat),
{
    let ghost was = s@;
    push_dec(s, x);
    s.append("x");
    push_dec(s, y);
    s.append("x");
    push_dec(s, b);
    assert(s@ =~= was + geometry(x as nat, y as nat, b as nat));
}

fn push_readback(s: &mut String, rb: Regs)
    ensures
        final(s)@ == old(s)@ + readback(rb),
{
    let ghost was = s@;
    s.append("xres=");
    push_dec(s, rb.xres as u64);
    s.append(" yres=");
    push_dec(s, rb.yres as u64);
    s.append(" bpp=");
    push_dec(s, rb.bpp as u64);
    s.append(" enable=");
    push_dec(s, rb.enable as u64);
    assert(s@ =~= was + readback(rb));
}

pub open spec fn no_display_text() -> Seq<char> {
    "[gpu] scan: no display-class (0x03) device in the PCI registry - fallback to the bootloader framebuffer"@
}

/// A BAR in the scan line.
pub open spec fn scan_bar(i: int, b: (bool, u32, u32)) -> Seq<char> {
    if b.2 == 0 {
        Seq::empty()
    } else {
        "bar"@ + dec(i as nat) + "="@ + (if b.0 { "io"@ } else { "mem"@ }) + ":0x"@ + hex(b.1 as nat) + "/"@ + (if b.2
            == UNSIZED { "?"@ } else { size_text(b.2) }) + " "@
    }
}

pub open spec fn scan_bars(f: PciFunction, n: int) -> Seq<char>
    decreases n,
{
    if n <= 0 {
        Seq::empty()
    } else {
        scan_bars(f, n - 1) + scan_bar(n - 1, f.bars@[n - 1])
    }
}

/// The display device that was found, with its BARs.
pub open spec fn scan_text(f: PciFunction) -> Seq<char> {
    "[gpu] scan: display device "@ + slot_text(f) + " "@ + identify_text(f) + " class="@ + zero_padded(
        hex(f.class as nat),
        2,
    ) + zero_padded(hex(f.subclass as nat), 2) + "("@ + class_text(f.class, f.subclass) + ") "@ + scan_bars(f, 6)
}

fn push_scan_bar(s: &mut String, i: usize, b: (bool, u32, u32))
    ensures
        final(s)@ == old(s)@ + scan_bar(i as int, b),
{
    let ghost was = s@;
    let (is_io, base, size) = b;
    if size != 0 {
        s.append("bar");
        push_dec(s, i as u64);
        s.append("=");
        s.append(if is_io { "io" } else { "mem" });
        s.append(":0x");
        push_hex(s, base as u64);
        s.append("/");
        if size == UNSIZED {
            s.append("?");
        } else {
            let t = size_str(size);
            s.append(t.as_str());
        }
        s.append(" ");
    }
    assert(s@ =~= was + scan_bar(i as int, b));
}

fn scan_line(f: &PciFunction) -> (r: String)
    ensures
        r@ == scan_text(*f),
{
    let mut s = String::from_str("[gpu] scan: display device ");
    let slot = f.slot();
    s.append(slot.as_str());
    s.append(" ");
    let id = f.identify();
    s.append(id.as_str());
    s.append(" class=");
    push_hex_padded(&mut s, f.class as u64, 2);
    push_hex_padded(&mut s, f.subclass as u64, 2);
    s.append("(");
    s.append(f.class_name());
    s.append(") ");
    let ghost head = s@;
    let mut i: usize = 0;
    assert(s@ =~= head + scan_bars(*f, 0));
    while i < 6
        invariant
            i <= 6,
            s@ == head + scan_bars(*f, i as int),
        decreases 6 - i,
    {
        push_scan_bar(&mut s, i, f.bars[i]);
        i += 1;
        assert(s@ =~= head + scan_bars(*f, i as int));
    }
    assert(s@ =~= scan_text(*f));
    s
}

/// No dispi interface behind the ports.
pub open spec fn no_dispi_text(id: u16, geo: (u64, u64, u64)) -> Seq<char> {
    "[gpu] dispi: no VBE interface behind 0x1CE/0x1CF (id="@ + hex0(id as nat, 4)
        + ", want 0xb0c0..=0xb0c5) - fallback: keep the bootloader framebuffer ("@ + geometry(
        geo.0 as nat,
        geo.1 as nat,
        geo.2 as nat,
    ) + ")"@
}

fn no_dispi_line(id: u16, geo: (u64, u64, u64)) -> (r: String)
    ensures
        r@ == no_dispi_text(id, geo),
{
    let mut s = String::from_str("[gpu] dispi: no VBE interface behind 0x1CE/0x1CF (id=");
    push_hex0(&mut s, id as u64, 4);
    s.append(", want 0xb0c0..=0xb0c5) - fallback: keep the bootloader framebuffer (");
    push_geometry(&mut s, geo.0, geo.1, geo.2);
    s.append(")");
    assert(s@ =~= no_dispi_text(id, geo));
    s
}

/// The interface and the mode as found.
pub open spec fn dispi_text(id: u16, revision: u16, vram_64k: u16, saved: Regs) -> Seq<char> {
    "[gpu] dispi: id="@ + hex0(id as nat, 4) + " revision="@ + dec(revision as nat) + " vram="@ + dec(
        (vram_64k * 64) as nat,
    ) + " KiB, mode as found "@ + geometry(saved.xres as nat, saved.yres as nat, saved.bpp as nat) + " enable="@ + dec(
        saved.enable as nat,
    ) + " - bochs VBE interface live"@
}

fn dispi_line(id: u16, revision: u16, vram_64k: u16, saved: Regs) -> (r: String)
    ensures
        r@ == dispi_text(id, revision, vram_64k, saved),
{
    let mut s = String::from_str("[gpu] dispi: id=");
    push_hex0(&mut s, id as u64, 4);
    s.append(" revision=");
    push_dec(&mut s, revision as u64);
    s.append(" vram=");
    push_dec(&mut s, vram_64k as u64 * 64);
    s.append(" KiB, mode as found ");
    push_geometry(&mut s, saved.xres as u64, saved.yres as u64, saved.bpp as u64);
    s.append(" enable=");
    push_dec(&mut s, saved.enable as u64);
    s.append(" - bochs VBE interface live");
    assert(s@ =~= dispi_text(id, revision, vram_64k, saved));
    s
}

/// The device did not take the mode.
pub open spec fn refused_text(w: Want, rb: Regs) -> Seq<char> {
    "[gpu] modeset: "@ + geometry(w.xres as nat, w.yres as nat, w.bpp as nat) + " was not accepted (read back "@
        + readback(rb) + ") - fallback to the bootloader framebuffer"@
}

fn refused_line(w: Want, rb: Regs) -> (r: String)
    ensures
        r@ == refused_text(w, rb),
{
    let mut s = String::from_str("[gpu] modeset: ");
    push_geometry(&mut s, w.xres as u64, w.yres as u64, w.bpp as u64);
    s.append(" was not accepted (read back ");
    push_readback(&mut s, rb);
    s.append(") - fallback to the bootloader framebuffer");
    assert(s@ =~= refused_text(w, rb));
    s
}

/// The rehearsal's mode was read back and is not the wanted one.
pub open spec fn rehearsed_text(w: Want, rb: Regs) -> Seq<char> {
    "[gpu] fallback-rehearsal: deliberately bogus "@ + geometry(w.xres as nat, w.yres as nat, w.bpp as nat)
        + " read back as "@ + readback(rb)
        + " - the same check the live boot uses would fall back to the bootloader framebuffer"@
}

fn rehearsed_line(w: Want, rb: Regs) -> (r: String)
    ensures
        r@ == rehearsed_text(w, rb),
{
    let mut s = String::from_str("[gpu] fallback-rehearsal: deliberately bogus ");
    push_geometry(&mut s, w.xres as u64, w.yres as u64, w.bpp as u64);
    s.append(" read back as ");
    push_readback(&mut s, rb);
    s.append(" - the same check the live boot uses would fall back to the bootloader framebuffer");
    assert(s@ =~= rehearsed_text(w, rb));
    s
}

/// The mode was taken.
pub open spec fn taken_text(enable: u16) -> Seq<char> {
    "[gpu] modeset: 1920x1080x32 programmed and read back (enable="@ + dec(enable as nat) + ")"@
}

fn taken_line(enable: u16) -> (r: String)
    ensures
        r@ == taken_text(enable),
{
    let mut s = String::from_str("[gpu] modeset: 1920x1080x32 programmed and read back (enable=");
    push_dec(&mut s, enable as u64);
    s.append(")");
    s
}

/// What came of the rehearsal.
pub open spec fn verdict_text(bad: Regs) -> Seq<char> {
    let programmed = matches(bad, bogus());
    let caught = !matches(bad, good());
    if programmed && caught {
        "[gpu] fallback-rehearsal: bogus mode 1920x1080x16 was really programmed and the read-back check detected it (bpp="@
            + dec(bad.bpp as nat) + " != 32) - the graceful-fallback verification is live"@
    } else {
        "[gpu] fallback-rehearsal: bogus mode was NOT detected (read back "@ + readback(bad) + ", programmed="@ + (
        if programmed { "true"@ } else { "false"@ }) + ", caught="@ + (if caught { "true"@ } else { "false"@ })
            + ") - verification is weaker than assumed"@
    }
}

fn verdict_line(bad: Regs) -> (r: String)
    ensures
        r@ == verdict_text(bad),
{
    let programmed = mode_matches(bad, Want { xres: 1920, yres: 1080, bpp: 16 });
    let caught = !mode_matches(bad, Want { xres: 1920, yres: 1080, bpp: 32 });
    if programmed && caught {
        let mut s = String::from_str(
            "[gpu] fallback-rehearsal: bogus mode 1920x1080x16 was really programmed and the read-back check detected it (bpp=",
        );
        push_dec(&mut s, bad.bpp as u64);
        s.append(" != 32) - the graceful-fallback verification is live");
        s
    } else {
        let mut s = String::from_str("[gpu] fallback-rehearsal: bogus mode was NOT detected (read back ");
        push_readback(&mut s, bad);
        s.append(", programmed=");
        s.append(if programmed { "true" } else { "false" });
        s.append(", caught=");
        s.append(if caught { "true" } else { "false" });
        s.append(") - verification is weaker than assumed");
        assert(s@ =~= verdict_text(bad));
        s
    }
}

pub open spec fn reset_text() -> Seq<char> {
    "[gpu] fallback-rehearsal: 1920x1080x32 restored and re-verified - the bootloader framebuffer stayed mapped the whole time"@
}

/// The found mode is back.
pub open spec fn restored_text(saved: Regs, rb: Regs) -> Seq<char> {
    "[gpu] fallback: pre-boot dispi mode "@ + geometry(saved.xres as nat, saved.yres as nat, saved.bpp as nat)
        + " restored (read back "@ + geometry(rb.xres as nat, rb.yres as nat, rb.bpp as nat) + " enable="@ + dec(
        rb.enable as nat,
    ) + ")"@
}

fn restored_line(saved: Regs, rb: Regs) -> (r: String)
    ensures
        r@ == restored_text(saved, rb),
{
    let mut s = String::from_str("[gpu] fallback: pre-boot dispi mode ");
    push_geometry(&mut s, saved.xres as u64, saved.yres as u64, saved.bpp as u64);
    s.append(" restored (read back ");
    push_geometry(&mut s, rb.xres as u64, rb.yres as u64, rb.bpp as u64);
    s.append(" enable=");
    push_dec(&mut s, rb.enable as u64);
    s.append(")");
    assert(s@ =~= restored_text(saved, rb));
    s
}

/// Why the bring-up fell back.
pub open spec fn why_text(why: Why) -> Seq<char> {
    match why {
        Why::NotTaken => ""@,
        Why::NoBar =>
            "[gpu] mapping: display device has no memory BAR - fallback to the bootloader framebuffer"@,
        Why::NotMapped =>
            "[gpu] mapping: could not map the framebuffer BAR - fallback to the bootloader framebuffer"@,
        Why::Canary => "[gpu] canary: framebuffer read-back mismatch - fallback to the bootloader framebuffer"@,
    }
}

fn why_line(why: Why) -> (r: String)
    ensures
        r@ == why_text(why),
{
    match why {
        Why::NotTaken => String::from_str(""),
        Why::NoBar => String::from_str(
            "[gpu] mapping: display device has no memory BAR - fallback to the bootloader framebuffer",
        ),
        Why::NotMapped => String::from_str(
            "[gpu] mapping: could not map the framebuffer BAR - fallback to the bootloader framebuffer",
        ),
        Why::Canary => String::from_str(
            "[gpu] canary: framebuffer read-back mismatch - fallback to the bootloader framebuffer",
        ),
    }
}

/// Where the surface is after the mode was set.
pub open spec fn bar_after_text(idx: usize, lfb: u32, size: u32) -> Seq<char> {
    "[gpu] bar"@ + dec(idx as nat) + " after modeset: base="@ + hex0(lfb as nat, 8) + " size="@ + (if size == UNSIZED {
        "unknown"@
    } else {
        size_text(size)
    }) + (if size != 0 && size != UNSIZED && MODE_BYTES > size {
        " - WARNING: mode surface is larger than the reported BAR"@
    } else {
        ""@
    }) + " (mode surface 8100 KiB)"@
}

fn bar_after_line(idx: usize, lfb: u32, size: u32) -> (r: String)
    ensures
        r@ == bar_after_text(idx, lfb, size),
{
    let mut s = String::from_str("[gpu] bar");
    push_dec(&mut s, idx as u64);
    s.append(" after modeset: base=");
    push_hex0(&mut s, lfb as u64, 8);
    s.append(" size=");
    if size == UNSIZED {
        s.append("unknown");
    } else {
        let t = size_str(size);
        s.append(t.as_str());
    }
    if size != 0 && size != UNSIZED && MODE_BYTES > size as u64 {
        s.append(" - WARNING: mode surface is larger than the reported BAR");
    } else {
        s.append("");
    }
    s.append(" (mode surface 8100 KiB)");
    assert(s@ =~= bar_after_text(idx, lfb, size));
    s
}

pub open spec fn mapped_text(lfb: u32) -> Seq<char> {
    "[gpu] mapping: 8100 KiB at 0x040000000000 (virt) -> "@ + hex0(lfb as nat, 8) + " (phys)"@
}

fn mapped_line(lfb: u32) -> (r: String)
    ensures
        r@ == mapped_text(lfb),
{
    let mut s = String::from_str("[gpu] mapping: 8100 KiB at 0x040000000000 (virt) -> ");
    push_hex0(&mut s, lfb as u64, 8);
    s.append(" (phys)");
    s
}

pub open spec fn canary_text(expected: u32, actual: u32) -> Seq<char> {
    "[gpu] canary: wrote 192 pixels (expect sum "@ + hex0(expected as nat, 8) + "), read back "@ + hex0(
        actual as nat,
        8,
    ) + " - mapping "@ + (if expected == actual { "verified"@ } else { "MISMATCH"@ })
}

fn canary_line(expected: u32, actual: u32) -> (r: String)
    ensures
        r@ == canary_text(expected, actual),
{
    let mut s = String::from_str("[gpu] canary: wrote 192 pixels (expect sum ");
    push_hex0(&mut s, expected as u64, 8);
    s.append("), read back ");
    push_hex0(&mut s, actual as u64, 8);
    s.append(" - mapping ");
    s.append(if expected == actual { "verified" } else { "MISMATCH" });
    assert(s@ =~= canary_text(expected, actual));
    s
}

/// The device once it is in use.
pub open spec fn scan_ok_text(f: PciFunction, idx: usize, lfb: u32, size: u32) -> Seq<char> {
    "[gpu] scan-ok: display device "@ + slot_text(f) + " "@ + identify_text(f) + " class=0300(display) bar"@ + dec(
        idx as nat,
    ) + "=mem:"@ + hex0(lfb as nat, 8) + "/"@ + (if size == UNSIZED || size == 0 { "?"@ } else { size_text(size) })
}

fn scan_ok_line(f: &PciFunction, idx: usize, lfb: u32, size: u32) -> (r: String)
    ensures
        r@ == scan_ok_text(*f, idx, lfb, size),
{
    let mut s = String::from_str("[gpu] scan-ok: display device ");
    let slot = f.slot();
    s.append(slot.as_str());
    s.append(" ");
    let id = f.identify();
    s.append(id.as_str());
    s.append(" class=0300(display) bar");
    push_dec(&mut s, idx as u64);
    s.append("=mem:");
    push_hex0(&mut s, lfb as u64, 8);
    s.append("/");
    if size == UNSIZED || size == 0 {
        s.append("?");
    } else {
        let t = size_str(size);
        s.append(t.as_str());
    }
    assert(s@ =~= scan_ok_text(*f, idx, lfb, size));
    s
}

/// The summary on the new console.
pub open spec fn summary_text(idx: usize, lfb: u32, size: u32, actual: u32) -> Seq<char> {
    "[gpu] mode set: 1920x1080x32 dispi LFB "@ + hex0(lfb as nat, 8) + " (BAR"@ + dec(idx as nat) + " "@ + (if size
        == UNSIZED || size == 0 { "size unknown"@ } else { size_text(size) }) + ", 8100 KiB mapped, canary "@ + hex0(
        actual as nat,
        8,
    ) + " verified) - console on the dispi framebuffer"@
}

fn summary_line(idx: usize, lfb: u32, size: u32, actual: u32) -> (r: String)
    ensures
        r@ == summary_text(idx, lfb, size, actual),
{
    let mut s = String::from_str("[gpu] mode set: 1920x1080x32 dispi LFB ");
    push_hex0(&mut s, lfb as u64, 8);
    s.append(" (BAR");
    push_dec(&mut s, idx as u64);
    s.append(" ");
    if size == UNSIZED || size == 0 {
        s.append("size unknown");
    } else {
        let t = size_str(size);
        s.append(t.as_str());
    }
    s.append(", 8100 KiB mapped, canary ");
    push_hex0(&mut s, actual as u64, 8);
    s.append(" verified) - console on the dispi framebuffer");
    assert(s@ =~= summary_text(idx, lfb, size, actual));
    s
}

// ---------------------------------------------------------------------
// The machine
// ---------------------------------------------------------------------

/// A step as the contracts see it.
pub struct StepView {
    pub gpu: Gpu,
    pub action: Action,
    pub lines: Seq<Seq<char>>,
}

/// The bring-up ends here.
pub open spec fn over(g: Gpu, lines: Seq<Seq<char>>) -> StepView {
    StepView { gpu: Gpu { phase: Phase::Done, ..g }, action: Action::Stop, lines }
}

/// Nothing was programmed before the boot that could be put back.
pub open spec fn nothing_saved(s: Regs) -> bool {
    s.xres == 0 && s.yres == 0 && s.bpp == 0
}

/// How the found mode is put back: live if it was live.
pub open spec fn put_back(s: Regs) -> Action {
    let w = Want { xres: s.xres, yres: s.yres, bpp: s.bpp };
    if s.enable % 2 == 1 { Action::SetMode(w) } else { Action::PutBack(w) }
}

/// The way out of a failure after the mode was touched: the found mode is put
/// back, and the fallback is counted with its reason.
pub open spec fn gives_up(g: Gpu, why: Why, before: Seq<Seq<char>>) -> StepView {
    if nothing_saved(g.saved) {
        over(Gpu { fallbacks: bump(g.fallbacks), why, ..g }, before.push(why_text(why)))
    } else {
        StepView { gpu: Gpu { phase: Phase::Restoring, why, ..g }, action: put_back(g.saved), lines: before }
    }
}

/// The device did not take the wanted mode.
pub open spec fn refused(g: Gpu, rb: Regs) -> StepView {
    let h = Gpu { fallbacks: bump(g.fallbacks), why: Why::NotTaken, ..g };
    let lines = seq![refused_text(good(), rb)];
    if nothing_saved(g.saved) {
        over(h, lines)
    } else {
        StepView { gpu: Gpu { phase: Phase::Restoring, ..h }, action: put_back(g.saved), lines }
    }
}

/// The first step: look for a display device.
pub open spec fn started(g: Gpu, devices: Seq<PciFunction>) -> StepView {
    match display_of(devices) {
        None => over(Gpu { fallbacks: bump(g.fallbacks), ..g }, seq![no_display_text()]),
        Some(f) => StepView {
            gpu: Gpu { phase: Phase::Probing, dev: Some(f), ..g },
            action: Action::Probe,
            lines: seq![scan_text(f)],
        },
    }
}

/// The mode as it is installed in the end.
pub open spec fn installed(g: Gpu, f: PciFunction) -> GpuMode {
    GpuMode {
        ven_dev: (f.vendor_id * 0x1_0000 + f.device_id) as u32,
        width: MODE_W,
        height: MODE_H,
        bpp: MODE_BPP,
        bar_idx: g.bar_idx,
        bar_base: if g.cached_base != 0 { g.cached_base } else { g.lfb },
        bar_size: g.bar_size,
        lfb_addr: g.lfb,
        enable: g.enable,
        mapped: MODE_BYTES,
        canary_expected: g.canary,
        canary_actual: g.canary,
    }
}

/// The step that the answer `e` leads to. `geo` is the geometry of the
/// console at that moment. An answer that was not asked for changes nothing,
/// and a surface that is not page aligned is never taken for mapped.
pub open spec fn advanced(g: Gpu, e: Event, geo: (u64, u64, u64)) -> StepView {
    match (g.phase, e) {
        (Phase::Probing, Event::Probed { id, revision, vram_64k }) => {
            if id < DISPI_ID_MIN || id > DISPI_ID_MAX {
                over(Gpu { fallbacks: bump(g.fallbacks), dispi_id: 0, ..g }, seq![no_dispi_text(id, geo)])
            } else {
                let h = Gpu { dispi_id: id as u32, ..g };
                StepView {
                    gpu: Gpu { phase: Phase::Finding, revision, vram_64k, ..h },
                    action: Action::ReadMode,
                    lines: seq![],
                }
            }
        },
        (Phase::Finding, Event::Mode(rb)) => StepView {
            gpu: Gpu { phase: Phase::Setting, saved: rb, ..g },
            action: Action::SetMode(good()),
            lines: seq![dispi_text(g.dispi_id as u16, g.revision, g.vram_64k, rb)],
        },
        (Phase::Setting, Event::Mode(rb)) => if matches(rb, good()) {
            StepView {
                gpu: Gpu { phase: Phase::Rehearsing, enable: rb.enable, ..g },
                action: Action::SetMode(bogus()),
                lines: seq![taken_text(rb.enable)],
            }
        } else {
            refused(g, rb)
        },
        (Phase::Rehearsing, Event::Mode(rb)) => {
            let caught = !matches(rb, good());
            StepView {
                gpu: Gpu {
                    phase: Phase::Resetting,
                    rehearsals: if caught { bump(g.rehearsals) } else { g.rehearsals },
                    ..g
                },
                action: Action::SetMode(good()),
                lines: if caught {
                    seq![rehearsed_text(bogus(), rb), verdict_text(rb)]
                } else {
                    seq![verdict_text(rb)]
                },
            }
        },
        (Phase::Resetting, Event::Mode(rb)) => if matches(rb, good()) {
            let b = match g.dev {
                Some(f) => bar_from(f, 0),
                None => None,
            };
            let (idx, base, size) = match b {
                Some(t) => t,
                None => (0usize, 0u32, 0u32),
            };
            StepView {
                gpu: Gpu { phase: Phase::Locating, bar_idx: idx, cached_base: base, bar_size: size, ..g },
                action: Action::ReadBar(idx),
                lines: seq![reset_text()],
            }
        } else {
            refused(g, rb)
        },
        (Phase::Locating, Event::Bar(fresh)) => {
            let lfb = if fresh != 0 { fresh } else { g.cached_base };
            if lfb == 0 {
                gives_up(g, Why::NoBar, seq![])
            } else {
                StepView {
                    gpu: Gpu { phase: Phase::Mapping, lfb, ..g },
                    action: Action::MapSurface(lfb),
                    lines: seq![bar_after_text(g.bar_idx, lfb, g.bar_size)],
                }
            }
        },
        (Phase::Mapping, Event::Mapped(ok)) => if ok && g.lfb % 4096 == 0 {
            StepView {
                gpu: Gpu { phase: Phase::Proving, ..g },
                action: Action::Canary,
                lines: seq![mapped_text(g.lfb)],
            }
        } else {
            gives_up(g, Why::NotMapped, seq![])
        },
        (Phase::Proving, Event::Canary { expected, actual }) => {
            let line = canary_text(expected, actual);
            if expected == actual {
                StepView {
                    gpu: Gpu { phase: Phase::Adopting, canary: actual, ..g },
                    action: Action::Adopt,
                    lines: seq![line],
                }
            } else {
                gives_up(g, Why::Canary, seq![line])
            }
        },
        (Phase::Adopting, Event::Adopted) => match g.dev {
            Some(f) => StepView {
                gpu: Gpu { phase: Phase::Done, mode: Some(installed(g, f)), ..g },
                action: Action::Stop,
                lines: seq![
                    scan_ok_text(f, g.bar_idx, g.lfb, g.bar_size),
                    summary_text(g.bar_idx, g.lfb, g.bar_size, g.canary),
                ],
            },
            None => StepView { gpu: g, action: Action::Stop, lines: seq![] },
        },
        (Phase::Restoring, Event::Mode(rb)) => {
            let line = restored_text(g.saved, rb);
            if g.why == Why::NotTaken {
                over(g, seq![line])
            } else {
                over(Gpu { fallbacks: bump(g.fallbacks), ..g }, seq![line, why_text(g.why)])
            }
        },
        _ => StepView { gpu: g, action: Action::Stop, lines: seq![] },
    }
}

fn plus_one(n: u32) -> (r: u32)
    ensures
        r == bump(n),
{
    if n == u32::MAX { 0 } else { n + 1 }
}

fn restore_action(s: Regs) -> (a: Action)
    ensures
        a == put_back(s),
{
    let w = Want { xres: s.xres, yres: s.yres, bpp: s.bpp };
    if s.enable % 2 == 1 { Action::SetMode(w) } else { Action::PutBack(w) }
}

fn none_saved(s: Regs) -> (r: bool)
    ensures
        r == nothing_saved(s),
{
    s.xres == 0 && s.yres == 0 && s.bpp == 0
}

/// The bring-up before its first step.
pub open spec fn fresh() -> Gpu {
    Gpu {
        phase: Phase::Idle,
        dev: None,
        revision: 0,
        vram_64k: 0,
        saved: Regs { xres: 0, yres: 0, bpp: 0, enable: 0 },
        enable: 0,
        bar_idx: 0,
        cached_base: 0,
        bar_size: 0,
        lfb: 0,
        canary: 0,
        why: Why::NotTaken,
        mode: None,
        fallbacks: 0,
        dispi_id: 0,
        rehearsals: 0,
    }
}

/// The bring-up before its first step.
pub fn new_gpu() -> (g: Gpu)
    ensures
        g == fresh(),
{
    Gpu {
        phase: Phase::Idle,
        dev: None,
        revision: 0,
        vram_64k: 0,
        saved: Regs { xres: 0, yres: 0, bpp: 0, enable: 0 },
        enable: 0,
        bar_idx: 0,
        cached_base: 0,
        bar_size: 0,
        lfb: 0,
        canary: 0,
        why: Why::NotTaken,
        mode: None,
        fallbacks: 0,
        dispi_id: 0,
        rehearsals: 0,
    }
}

impl Gpu {
    fn stop(&mut self) -> (a: Action)
        ensures
            *final(self) == (Gpu { phase: Phase::Done, ..*old(self) }),
            a == Action::Stop,
    {
        self.phase = Phase::Done;
        Action::Stop
    }

    fn give_up(&mut self, why: Why, before: Vec<String>) -> (s: Step)
        ensures
            (StepView { gpu: *final(self), action: s.action, lines: said(s.lines@) }) == gives_up(
                *old(self),
                why,
                said(before@),
            ),
    {
        let mut lines = before;
        self.why = why;
        if none_saved(self.saved) {
            self.fallbacks = plus_one(self.fallbacks);
            lines.push(why_line(why));
            assert(said(lines@) =~= said(before@).push(why_text(why)));
            let action = self.stop();
            Step { action, lines }
        } else {
            self.phase = Phase::Restoring;
            Step { action: restore_action(self.saved), lines }
        }
    }

    fn refuse(&mut self, rb: Regs) -> (s: Step)
        ensures
            (StepView { gpu: *final(self), action: s.action, lines: said(s.lines@) }) == refused(*old(self), rb),
    {
        let mut lines: Vec<String> = Vec::new();
        lines.push(refused_line(Want { xres: 1920, yres: 1080, bpp: 32 }, rb));
        assert(said(lines@) =~= seq![refused_text(good(), rb)]);
        self.fallbacks = plus_one(self.fallbacks);
        self.why = Why::NotTaken;
        if none_saved(self.saved) {
            let action = self.stop();
            Step { action, lines }
        } else {
            self.phase = Phase::Restoring;
            Step { action: restore_action(self.saved), lines }
        }
    }

    /// Takes the first step: the scan of the PCI registry.
    pub fn init(&mut self, devices: &Vec<PciFunction>) -> (s: Step)
        ensures
            (StepView { gpu: *final(self), action: s.action, lines: said(s.lines@) }) == started(
                *old(self),
                devices@,
            ),
    {
        let mut lines: Vec<String> = Vec::new();
        match find_display(devices) {
            None => {
                self.fallbacks = plus_one(self.fallbacks);
                lines.push(
                    String::from_str(
                        "[gpu] scan: no display-class (0x03) device in the PCI registry - fallback to the bootloader framebuffer",
                    ),
                );
                assert(said(lines@) =~= seq![no_display_text()]);
                let action = self.stop();
                Step { action, lines }
            },
            Some(f) => {
                lines.push(scan_line(&f));
                assert(said(lines@) =~= seq![scan_text(f)]);
                self.phase = Phase::Probing;
                self.dev = Some(f);
                Step { action: Action::Probe, lines }
            },
        }
    }

    fn probed(&mut self, id: u16, revision: u16, vram_64k: u16, geo: (u64, u64, u64)) -> (s: Step)
        requires
            old(self).phase == Phase::Probing,
        ensures
            (StepView { gpu: *final(self), action: s.action, lines: said(s.lines@) }) == advanced(
                *old(self),
                Event::Probed { id, revision, vram_64k },
                geo,
            ),
    {
        let mut lines: Vec<String> = Vec::new();
        if id < DISPI_ID_MIN || id > DISPI_ID_MAX {
            self.dispi_id = 0;
            self.fallbacks = plus_one(self.fallbacks);
            lines.push(no_dispi_line(id, geo));
            assert(said(lines@) =~= seq![no_dispi_text(id, geo)]);
            let action = self.stop();
            Step { action, lines }
        } else {
            self.dispi_id = id as u32;
            self.phase = Phase::Finding;
            self.revision = revision;
            self.vram_64k = vram_64k;
            assert(said(lines@) =~= seq![]);
            Step { action: Action::ReadMode, lines }
        }
    }

    fn mode_read(&mut self, rb: Regs, geo: (u64, u64, u64)) -> (s: Step)
        ensures
            (StepView { gpu: *final(self), action: s.action, lines: said(s.lines@) }) == advanced(
                *old(self),
                Event::Mode(rb),
                geo,
            ),
    {
        let want = Want { xres: 1920, yres: 1080, bpp: 32 };
        let mut lines: Vec<String> = Vec::new();
        match self.phase {
            Phase::Finding => {
                lines.push(dispi_line(self.dispi_id as u16, self.revision, self.vram_64k, rb));
                assert(said(lines@) =~= seq![dispi_text(self.dispi_id as u16, self.revision, self.vram_64k, rb)]);
                self.phase = Phase::Setting;
                self.saved = rb;
                Step { action: Action::SetMode(want), lines }
            },
            Phase::Setting => {
                if !mode_matches(rb, want) {
                    return self.refuse(rb);
                }
                lines.push(taken_line(rb.enable));
                assert(said(lines@) =~= seq![taken_text(rb.enable)]);
                self.phase = Phase::Rehearsing;
                self.enable = rb.enable;
                Step { action: Action::SetMode(Want { xres: 1920, yres: 1080, bpp: 16 }), lines }
            },
            Phase::Rehearsing => {
                self.phase = Phase::Resetting;
                if !mode_matches(rb, want) {
                    self.rehearsals = plus_one(self.rehearsals);
                    lines.push(rehearsed_line(Want { xres: 1920, yres: 1080, bpp: 16 }, rb));
                    lines.push(verdict_line(rb));
                    assert(said(lines@) =~= seq![rehearsed_text(bogus(), rb), verdict_text(rb)]);
                } else {
                    lines.push(verdict_line(rb));
                    assert(said(lines@) =~= seq![verdict_text(rb)]);
                }
                Step { action: Action::SetMode(want), lines }
            },
            Phase::Resetting => {
                if !mode_matches(rb, want) {
                    return self.refuse(rb);
                }
                let bar = match self.dev {
                    Some(f) => framebuffer_bar(&f),
                    None => None,
                };
                let (idx, base, size) = match bar {
                    Some(t) => t,
                    None => (0usize, 0u32, 0u32),
                };
                self.phase = Phase::Locating;
                self.bar_idx = idx;
                self.cached_base = base;
                self.bar_size = size;
                lines.push(
                    String::from_str(
                        "[gpu] fallback-rehearsal: 1920x1080x32 restored and re-verified - the bootloader framebuffer stayed mapped the whole time",
                    ),
                );
                assert(said(lines@) =~= seq![reset_text()]);
                Step { action: Action::ReadBar(idx), lines }
            },
            Phase::Restoring => {
                lines.push(restored_line(self.saved, rb));
                if self.why != Why::NotTaken {
                    lines.push(why_line(self.why));
                    self.fallbacks = plus_one(self.fallbacks);
                    assert(said(lines@) =~= seq![restored_text(self.saved, rb), why_text(self.why)]);
                } else {
                    assert(said(lines@) =~= seq![restored_text(self.saved, rb)]);
                }
                let action = self.stop();
                Step { action, lines }
            },
            _ => {
                assert(said(lines@) =~= seq![]);
                Step { action: Action::Stop, lines }
            },
        }
    }

    fn adopted(&mut self, geo: (u64, u64, u64)) -> (s: Step)
        requires
            old(self).phase == Phase::Adopting,
        ensures
            (StepView { gpu: *final(self), action: s.action, lines: said(s.lines@) }) == advanced(
                *old(self),
                Event::Adopted,
                geo,
            ),
    {
        let mut lines: Vec<String> = Vec::new();
        match self.dev {
            Some(f) => {
                lines.push(scan_ok_line(&f, self.bar_idx, self.lfb, self.bar_size));
                lines.push(summary_line(self.bar_idx, self.lfb, self.bar_size, self.canary));
                assert(said(lines@) =~= seq![
                    scan_ok_text(f, self.bar_idx, self.lfb, self.bar_size),
                    summary_text(self.bar_idx, self.lfb, self.bar_size, self.canary),
                ]);
                self.phase = Phase::Done;
                self.mode = Some(
                    GpuMode {
                        ven_dev: f.vendor_id as u32 * 0x1_0000 + f.device_id as u32,
                        width: MODE_W,
                        height: MODE_H,
                        bpp: MODE_BPP,
                        bar_idx: self.bar_idx,
                        bar_base: if self.cached_base != 0 { self.cached_base } else { self.lfb },
                        bar_size: self.bar_size,
                        lfb_addr: self.lfb,
                        enable: self.enable,
                        mapped: MODE_BYTES,
                        canary_expected: self.canary,
                        canary_actual: self.canary,
                    },
                );
            },
            None => {
                assert(said(lines@) =~= seq![]);
            },
        }
        Step { action: Action::Stop, lines }
    }

    /// Takes the step that the answer to the last access leads to.
    pub fn advance(&mut self, e: Event, geo: (u64, u64, u64)) -> (s: Step)
        ensures
            (StepView { gpu: *final(self), action: s.action, lines: said(s.lines@) }) == advanced(
                *old(self),
                e,
                geo,
            ),
    {
        let mut lines: Vec<String> = Vec::new();
        assert(said(lines@) =~= seq![]);
        match (self.phase, e) {
            (Phase::Probing, Event::Probed { id, revision, vram_64k }) => self.probed(id, revision, vram_64k, geo),
            (_, Event::Mode(rb)) => self.mode_read(rb, geo),
            (Phase::Locating, Event::Bar(fresh)) => {
                let lfb = if fresh != 0 { fresh } else { self.cached_base };
                if lfb == 0 {
                    self.give_up(Why::NoBar, lines)
                } else {
                    lines.push(bar_after_line(self.bar_idx, lfb, self.bar_size));
                    assert(said(lines@) =~= seq![bar_after_text(self.bar_idx, lfb, self.bar_size)]);
                    self.phase = Phase::Mapping;
                    self.lfb = lfb;
                    Step { action: Action::MapSurface(lfb), lines }
                }
            },
            (Phase::Mapping, Event::Mapped(ok)) => {
                if ok && self.lfb % 4096 == 0 {
                    lines.push(mapped_line(self.lfb));
                    assert(said(lines@) =~= seq![mapped_text(self.lfb)]);
                    self.phase = Phase::Proving;
                    Step { action: Action::Canary, lines }
                } else {
                    self.give_up(Why::NotMapped, lines)
                }
            },
            (Phase::Proving, Event::Canary { expected, actual }) => {
                lines.push(canary_line(expected, actual));
                assert(said(lines@) =~= seq![canary_text(expected, actual)]);
                if expected == actual {
                    self.phase = Phase::Adopting;
                    self.canary = actual;
                    Step { action: Action::Adopt, lines }
                } else {
                    self.give_up(Why::Canary, lines)
                }
            },
            (Phase::Adopting, Event::Adopted) => self.adopted(geo),
            _ => Step { action: Action::Stop, lines },
        }
    }

    /// The mode that was installed, if any.
    pub fn mode(&self) -> (r: Option<GpuMode>)
        ensures
            r == self.mode,
    {
        self.mode
    }

    /// The kernel's mode is live.
    pub fn mode_present(&self) -> (r: bool)
        ensures
            r == (self.mode is Some),
    {
        self.mode.is_some()
    }

    /// How many steps fell back to the boot screen.
    pub fn fallbacks(&self) -> (r: u32)
        ensures
            r == self.fallbacks,
    {
        self.fallbacks
    }

    /// The id that the dispi ports reported; 0 without an interface behind them.
    pub fn dispi_id(&self) -> (r: u32)
        ensures
            r == self.dispi_id,
    {
        self.dispi_id
    }

    /// How many rehearsals the read-back check caught.
    pub fn rehearsals(&self) -> (r: u32)
        ensures
            r == self.rehearsals,
    {
        self.rehearsals
    }
}

/// The mode has been touched and the bring-up still waits for an answer.
pub open spec fn touched(p: Phase) -> bool {
    p == Phase::Setting || p == Phase::Rehearsing || p == Phase::Resetting || p == Phase::Locating || p
        == Phase::Mapping || p == Phase::Proving
}

/// No failure leaves a mode behind that nobody owns: once the mode has been
/// touched, the bring-up stops without a mode of its own only after it has put
/// the found one back, unless nothing had been programmed before.
pub proof fn law_failures_put_the_mode_back(g: Gpu, e: Event, geo: (u64, u64, u64))
    requires
        touched(g.phase),
        advanced(g, e, geo).gpu.phase == Phase::Done,
    ensures
        nothing_saved(g.saved),
        advanced(g, e, geo).gpu.mode == g.mode,
        advanced(g, e, geo).gpu.fallbacks == bump(g.fallbacks),
{
}

/// Putting back asks for exactly the registers that were found, and keeps
/// them for as long as it lasts.
pub proof fn law_the_found_mode_is_kept(g: Gpu, e: Event, geo: (u64, u64, u64))
    requires
        touched(g.phase),
    ensures
        advanced(g, e, geo).gpu.saved == g.saved,
        advanced(g, e, geo).gpu.phase == Phase::Restoring ==> advanced(g, e, geo).action == put_back(g.saved),
{
}

/// The console is handed over only to a surface whose canary came back as it
/// was written, and a mode is reported only for that surface.
pub proof fn law_only_a_proved_surface_is_adopted(g: Gpu, e: Event, geo: (u64, u64, u64))
    ensures
        advanced(g, e, geo).action == Action::Adopt ==> g.phase == Phase::Proving && (e matches Event::Canary {
            expected,
            actual,
        } && expected == actual),
        advanced(g, e, geo).gpu.mode != g.mode ==> g.phase == Phase::Adopting && advanced(g, e, geo).gpu.mode is Some,
{
}

/// The bring-up over the devices found, after some answers.
pub open spec fn ran(devices: Seq<PciFunction>, answers: Seq<(Event, (u64, u64, u64))>) -> Gpu
    decreases answers.len(),
{
    if answers.len() == 0 {
        started(fresh(), devices).gpu
    } else {
        let (e, geo) = answers.last();
        advanced(ran(devices, answers.drop_last()), e, geo).gpu
    }
}

/// How far a run has come: a mode is there only at the end, and a fallback is
/// counted once, when the run is given up.
spec fn on_course(g: Gpu) -> bool {
    match g.phase {
        Phase::Done => {
            &&& g.fallbacks == if g.mode is Some { 0int } else { 1 }
            &&& g.mode is Some ==> is_wanted(g.mode->0)
        },
        Phase::Restoring => g.mode is None && g.fallbacks == if g.why == Why::NotTaken {
            1int
        } else {
            0
        },
        _ => {
            &&& g.mode is None
            &&& g.fallbacks == 0
            &&& g.dev is Some
            &&& g.phase == Phase::Mapping || g.phase == Phase::Proving || g.phase == Phase::Adopting
                ==> g.lfb != 0
            &&& g.phase == Phase::Proving || g.phase == Phase::Adopting ==> g.lfb % 4096 == 0
            &&& g.phase == Phase::Rehearsing || g.phase == Phase::Resetting || g.phase == Phase::Locating || g.phase
                == Phase::Mapping || g.phase == Phase::Proving || g.phase == Phase::Adopting ==> g.enable % 2 == 1
        },
    }
}

/// The mode that the bring-up installs: its geometry, the device enabled, a
/// page-aligned surface that was found, mapped in full, and whose canary came
/// back.
pub open spec fn is_wanted(m: GpuMode) -> bool {
    &&& m.width == MODE_W
    &&& m.height == MODE_H
    &&& m.bpp == MODE_BPP
    &&& m.mapped == MODE_BYTES
    &&& m.enable % 2 == 1
    &&& m.lfb_addr != 0
    &&& m.lfb_addr % 4096 == 0
    &&& m.bar_base != 0
    &&& m.canary_expected == m.canary_actual
}

#[verifier::spinoff_prover]
#[verifier::rlimit(50)]
proof fn lemma_stays_on_course(g: Gpu, e: Event, geo: (u64, u64, u64))
    requires
        on_course(g),
    ensures
        on_course(advanced(g, e, geo).gpu),
{
}

proof fn lemma_on_course(devices: Seq<PciFunction>, answers: Seq<(Event, (u64, u64, u64))>)
    ensures
        on_course(ran(devices, answers)),
    decreases answers.len(),
{
    if answers.len() > 0 {
        let (e, geo) = answers.last();
        lemma_on_course(devices, answers.drop_last());
        lemma_stays_on_course(ran(devices, answers.drop_last()), e, geo);
    } else {
        assert(on_course(started(fresh(), devices).gpu));
    }
}

/// A run that has ended has the wanted mode and counted no fallback, or has no
/// mode and counted one.
pub proof fn law_finished_run(devices: Seq<PciFunction>, answers: Seq<(Event, (u64, u64, u64))>)
    requires
        ran(devices, answers).phase == Phase::Done,
    ensures
        ran(devices, answers).mode is Some <==> ran(devices, answers).fallbacks == 0,
        ran(devices, answers).fallbacks <= 1,
        ran(devices, answers).mode is Some ==> is_wanted(ran(devices, answers).mode->0),
{
    lemma_on_course(devices, answers);
}

/// While a run has not ended there is no mode.
pub proof fn law_no_mode_before_the_end(
    devices: Seq<PciFunction>,
    answers: Seq<(Event, (u64, u64, u64))>,
)
    requires
        ran(devices, answers).phase != Phase::Done,
    ensures
        ran(devices, answers).mode is None,
{
    lemma_on_course(devices, answers);
}

/// The check catches the rehearsal: no read-back shows both modes.
pub proof fn law_rehearsal_is_caught(rb: Regs)
    requires
        matches(rb, bogus()),
    ensures
        !matches(rb, good()),
{
}

// ---------------------------------------------------------------------
// The mapping
// ---------------------------------------------------------------------

/// Whether the surface at `phys` can be mapped: it is page aligned, the page
/// tables can be edited, and nothing is mapped at its place yet. The result
/// is the number of pages.
pub fn map_plan(phys: u64, size: u64, have_mapper: bool, taken: bool) -> (r: Option<u64>)
    requires
        size <= u64::MAX - 4095,
    ensures
        r == (if phys % 4096 != 0 || !have_mapper || taken {
            None
        } else {
            Some(((size + 4095) / 4096) as u64)
        }),
{
    if phys % 4096 != 0 || !have_mapper || taken {
        return None;
    }
    Some((size + 4095) / 4096)
}

/// Virtual and physical address of page `i` of the mapping.
pub fn map_page(phys: u64, i: u64) -> (r: (u64, u64))
    requires
        phys + i * 4096 <= u64::MAX,
        FB_VADDR + i * 4096 <= u64::MAX,
    ensures
        r == ((FB_VADDR + i * 4096) as u64, (phys + i * 4096) as u64),
{
    (FB_VADDR + i * 4096, phys + i * 4096)
}

// ---------------------------------------------------------------------
// The canary
// ---------------------------------------------------------------------

/// Point `i` of the canary: three squares of 8 by 8 pixels in turn, at the
/// top left, at the bottom right and at the right of the middle.
pub open spec fn canary_point(w: u64, h: u64, i: int) -> (int, int) {
    let dx = i / 3 % 8;
    let dy = i / 3 / 8;
    if i % 3 == 0 {
        (dx, dy)
    } else if i % 3 == 1 {
        (w - 8 + dx, h - 8 + dy)
    } else {
        (w - 8 + dx, h / 2 + dy)
    }
}

/// The pixels that the canary touches.
pub fn canary_points(w: u64, h: u64) -> (r: Vec<(u64, u64)>)
    requires
        8 <= w,
        8 <= h,
        h / 2 + 8 <= u64::MAX,
    ensures
        r@.len() == 192,
        forall|i: int|
            0 <= i < 192 ==> (#[trigger] r@[i]).0 == canary_point(w, h, i).0 && r@[i].1 == canary_point(w, h, i).1,
{
    let mut r: Vec<(u64, u64)> = Vec::new();
    let mut q: u64 = 0;
    while q < 64
        invariant
            8 <= w,
            8 <= h,
            h / 2 + 8 <= u64::MAX,
            q <= 64,
            r@.len() == 3 * q,
            forall|i: int|
                0 <= i < 3 * q ==> (#[trigger] r@[i]).0 == canary_point(w, h, i).0 && r@[i].1 == canary_point(
                    w,
                    h,
                    i,
                ).1,
        decreases 64 - q,
    {
        let dx: u64 = q % 8;
        let dy: u64 = q / 8;
        r.push((dx, dy));
        r.push((w - 8 + dx, h - 8 + dy));
        r.push((w - 8 + dx, h / 2 + dy));
        q += 1;
    }
    r
}

/// The word that the canary stores at (x, y): a tag, eleven bits for the column
/// and the row above them.
pub open spec fn canary_word(x: u64, y: u64) -> u32 {
    0xA500_0000u32 | ((y as u32) << 11) | (x as u32)
}

/// Different pixels of the mode have different words: what a wrong stride or a
/// shifted mapping reads back is not what was stored.
pub proof fn law_canary_words_differ(x1: u64, y1: u64, x2: u64, y2: u64)
    requires
        x1 < MODE_W,
        x2 < MODE_W,
        y1 < MODE_H,
        y2 < MODE_H,
        (x1, y1) != (x2, y2),
    ensures
        canary_word(x1, y1) != canary_word(x2, y2),
{
    let (a, b, c, d) = (x1 as u32, y1 as u32, x2 as u32, y2 as u32);
    assert(a != c || b != d ==> 0xA500_0000u32 | (b << 11) | a != 0xA500_0000u32 | (d << 11) | c) by (bit_vector)
        requires
            a < 1920,
            c < 1920,
            b < 1080,
            d < 1080,
    ;
}

/// The word for a pixel: a tag with the coordinates folded in.
pub fn canary_value(x: u64, y: u64) -> (r: u32)
    ensures
        r == canary_word(x, y),
{
    0xA500_0000u32 | ((y as u32) << 11) | (x as u32)
}

/// Offset of a pixel of a surface `w` pixels wide.
pub open spec fn offset_of(w: u64, p: (u64, u64)) -> int {
    p.1 * (w * MODE_BPP) + p.0 * MODE_BPP
}

/// The surface with the first `n` canary words written.
pub open spec fn canary_written(fb: Seq<u8>, w: u64, pts: Seq<(u64, u64)>, n: int) -> Seq<u8>
    decreases n,
{
    if n <= 0 {
        fb
    } else {
        splice(
            canary_written(fb, w, pts, n - 1),
            offset_of(w, pts[n - 1]),
            le32_bytes(canary_word(pts[n - 1].0, pts[n - 1].1) as int),
        )
    }
}

/// Sum of the first `n` canary words, in 32 bits.
pub open spec fn canary_sum(pts: Seq<(u64, u64)>, n: int) -> int
    decreases n,
{
    if n <= 0 {
        0
    } else {
        (canary_sum(pts, n - 1) + canary_word(pts[n - 1].0, pts[n - 1].1)) % 0x1_0000_0000
    }
}

/// Sum of the words that the surface holds at the first `n` points.
pub open spec fn found_sum(fb: Seq<u8>, w: u64, pts: Seq<(u64, u64)>, n: int) -> int
    decreases n,
{
    if n <= 0 {
        0
    } else {
        (found_sum(fb, w, pts, n - 1) + le32(fb, offset_of(w, pts[n - 1]))) % 0x1_0000_0000
    }
}

/// Every point lies in the surface.
pub open spec fn points_fit(len: int, w: u64, pts: Seq<(u64, u64)>) -> bool {
    forall|i: int| 0 <= i < pts.len() ==> 0 <= offset_of(w, #[trigger] pts[i]) <= len - 4
}

fn pixel_offset(w: u64, p: (u64, u64), len: usize) -> (o: usize)
    requires
        0 <= offset_of(w, p) <= len - 4,
        len <= usize::MAX,
        1 <= w,
    ensures
        o == offset_of(w, p),
{
    proof {
        let (x, y, ww) = (p.0 as int, p.1 as int, w as int);
        assert(0 <= y * (ww * 4) && (y >= 1 ==> ww * 4 <= y * (ww * 4)) && 0 <= x * 4) by (nonlinear_arith)
            requires
                0 <= y,
                0 <= x,
                1 <= ww,
        ;
    }
    let base: u64 = if p.1 == 0 { 0 } else { p.1 * (w * MODE_BPP) };
    (base + p.0 * MODE_BPP) as usize
}

/// Writes the canary and reads it back: the sum of what was written and the
/// sum of what the surface then holds.
pub fn canary_roundtrip(fb: &mut [u8], w: u64, points: &Vec<(u64, u64)>) -> (r: (u32, u32))
    requires
        points_fit(old(fb)@.len() as int, w, points@),
        1 <= w,
    ensures
        final(fb)@ == canary_written(old(fb)@, w, points@, points@.len() as int),
        r.0 == canary_sum(points@, points@.len() as int),
        r.1 == found_sum(final(fb)@, w, points@, points@.len() as int),
{
    let ghost before = fb@;
    let len: usize = fb.len();
    let mut expected: u32 = 0;
    let mut i: usize = 0;
    while i < points.len()
        invariant
            i <= points@.len(),
            1 <= w,
            len == before.len(),
            points_fit(len as int, w, points@),
            fb@ == canary_written(before, w, points@, i as int),
            fb@.len() == len,
            expected == canary_sum(points@, i as int),
        decreases points@.len() - i,
    {
        let (x, y) = points[i];
        let v: u32 = canary_value(x, y);
        expected = expected.wrapping_add(v);
        let o: usize = pixel_offset(w, points[i], len);
        put_u32(fb, o, v);
        i += 1;
    }
    let mut actual: u32 = 0;
    let mut i: usize = 0;
    while i < points.len()
        invariant
            i <= points@.len(),
            1 <= w,
            fb@.len() == len,
            points_fit(len as int, w, points@),
            actual == found_sum(fb@, w, points@, i as int),
        decreases points@.len() - i,
    {
        let o: usize = pixel_offset(w, points[i], len);
        let v: u32 = get_u32(fb, o);
        actual = actual.wrapping_add(v);
        i += 1;
    }
    (expected, actual)
}

/// No two points share a byte.
pub open spec fn points_apart(w: u64, pts: Seq<(u64, u64)>) -> bool {
    forall|i: int, j: int|
        0 <= i < j < pts.len() ==> {
            let a = offset_of(w, #[trigger] pts[i]);
            let b = offset_of(w, #[trigger] pts[j]);
            a + 4 <= b || b + 4 <= a
        }
}

/// A word that was written is still there after the later ones.
proof fn lemma_word_stays(fb: Seq<u8>, w: u64, pts: Seq<(u64, u64)>, i: int, n: int)
    requires
        points_fit(fb.len() as int, w, pts),
        points_apart(w, pts),
        0 <= i < n <= pts.len(),
    ensures
        canary_written(fb, w, pts, n).len() == fb.len(),
        le32(canary_written(fb, w, pts, n), offset_of(w, pts[i])) == canary_word(pts[i].0, pts[i].1),
    decreases n,
{
    let was = canary_written(fb, w, pts, n - 1);
    let o = offset_of(w, pts[n - 1]);
    let v = canary_word(pts[n - 1].0, pts[n - 1].1);
    if n - 1 > i {
        lemma_word_stays(fb, w, pts, i, n - 1);
        let a = offset_of(w, pts[i]);
        assert(a + 4 <= o || o + 4 <= a);
        let now = splice(was, o, le32_bytes(v as int));
        assert(now[a] == was[a] && now[a + 1] == was[a + 1] && now[a + 2] == was[a + 2] && now[a + 3] == was[a + 3]);
    } else {
        lemma_written_len(fb, w, pts, n - 1);
        law_le32_roundtrip(was, o, v);
    }
}

proof fn lemma_written_len(fb: Seq<u8>, w: u64, pts: Seq<(u64, u64)>, n: int)
    ensures
        canary_written(fb, w, pts, n).len() == fb.len(),
    decreases n,
{
    if n > 0 {
        lemma_written_len(fb, w, pts, n - 1);
    }
}

proof fn lemma_sums(fb: Seq<u8>, w: u64, pts: Seq<(u64, u64)>, n: int)
    requires
        points_fit(fb.len() as int, w, pts),
        points_apart(w, pts),
        0 <= n <= pts.len(),
    ensures
        found_sum(canary_written(fb, w, pts, pts.len() as int), w, pts, n) == canary_sum(pts, n),
    decreases n,
{
    if n > 0 {
        lemma_sums(fb, w, pts, n - 1);
        lemma_word_stays(fb, w, pts, n - 1, pts.len() as int);
    }
}

/// The points of the canary on a surface of this size.
pub open spec fn are_canary_points(w: u64, h: u64, pts: Seq<(u64, u64)>) -> bool {
    &&& pts.len() == 192
    &&& forall|i: int|
        0 <= i < 192 ==> (#[trigger] pts[i]).0 == canary_point(w, h, i).0 && pts[i].1 == canary_point(w, h, i).1
}

/// Plain memory passes the canary: on a surface that keeps what is written,
/// the two sums are the same, so a difference shows a bad mapping.
pub proof fn law_memory_passes_the_canary(fb: Seq<u8>, w: u64, h: u64, pts: Seq<(u64, u64)>)
    requires
        16 <= w,
        32 <= h,
        are_canary_points(w, h, pts),
        fb.len() >= h * (w * MODE_BPP),
    ensures
        points_fit(fb.len() as int, w, pts),
        found_sum(canary_written(fb, w, pts, 192), w, pts, 192) == canary_sum(pts, 192),
{
    assert forall|i: int| 0 <= i < pts.len() implies 0 <= offset_of(w, #[trigger] pts[i]) <= fb.len() - 4 by {
        let (x, y, ww, hh) = (pts[i].0 as int, pts[i].1 as int, w as int, h as int);
        assert(0 <= x < ww && 0 <= y < hh);
        assert(0 <= y * (ww * 4) + x * 4 <= hh * (ww * 4) - 4) by (nonlinear_arith)
            requires
                0 <= x < ww,
                0 <= y < hh,
        ;
    }
    assert forall|i: int, j: int| 0 <= i < j < pts.len() implies {
        let a = offset_of(w, #[trigger] pts[i]);
        let b = offset_of(w, #[trigger] pts[j]);
        a + 4 <= b || b + 4 <= a
    } by {
        let (x1, y1, x2, y2, ww) = (pts[i].0 as int, pts[i].1 as int, pts[j].0 as int, pts[j].1 as int, w as int);
        assert(x1 != x2 || y1 != y2) by {
            if i % 3 == j % 3 {
                assert(i / 3 != j / 3);
                assert(i / 3 == i / 3 / 8 * 8 + i / 3 % 8);
                assert(j / 3 == j / 3 / 8 * 8 + j / 3 % 8);
            }
        }
        assert(y1 * (ww * 4) + x1 * 4 + 4 <= y2 * (ww * 4) + x2 * 4 || y2 * (ww * 4) + x2 * 4 + 4 <= y1 * (ww * 4)
            + x1 * 4) by (nonlinear_arith)
            requires
                0 <= x1 < ww,
                0 <= x2 < ww,
                x1 != x2 || y1 != y2,
        ;
    }
    lemma_sums(fb, w, pts, 192);
}

// ---------------------------------------------------------------------
// The report from a task
// ---------------------------------------------------------------------

/// The report when no mode was installed.
pub open spec fn no_mode_text(fallbacks: u32) -> Seq<char> {
    "[gpu] task: no modeset ("@ + dec(fallbacks as nat) + " fallback step(s)) - the bootloader framebuffer is live"@
}

/// The registers as a task sees them.
pub open spec fn registers_text(g: Gpu, rb: Regs, cpu: u64) -> Seq<char> {
    "[gpu] task: dispi registers from task context: "@ + geometry(rb.xres as nat, rb.yres as nat, rb.bpp as nat)
        + " enable="@ + dec(rb.enable as nat) + " (cpu "@ + dec(cpu as nat) + "); dispi id="@ + hex0(
        g.dispi_id as nat,
        4,
    ) + " fallbacks="@ + dec(g.fallbacks as nat) + " rehearsals="@ + dec(g.rehearsals as nat) + " mode_present="@ + (
    if g.mode is Some { "true"@ } else { "false"@ })
}

/// The byte that a task reads in the middle of the surface: its address.
pub open spec fn probe_at(m: GpuMode) -> int {
    FB_VADDR + (m.height / 2) * m.width * MODE_BPP
}

pub open spec fn probe_text(m: GpuMode, byte: u8) -> Seq<char> {
    "[gpu] task: LFB probe byte @"@ + hex0(probe_at(m) as nat, 12) + " row "@ + dec((m.height / 2) as nat) + " = "@
        + hex0(byte as nat, 2) + " - mapping translates"@
}

/// The mode as installed.
pub open spec fn mode_text(m: GpuMode) -> Seq<char> {
    "[gpu] task: mode "@ + geometry(m.width as nat, m.height as nat, (m.bpp * 8) as nat) + " on "@ + zero_padded(
        hex((m.ven_dev / 0x1_0000) as nat),
        4,
    ) + ":"@ + zero_padded(hex((m.ven_dev % 0x1_0000) as nat), 4) + ", BAR"@ + dec(m.bar_idx as nat) + " "@ + hex0(
        m.bar_base as nat,
        8,
    ) + " (LFB "@ + hex0(m.lfb_addr as nat, 8) + "), "@ + dec((m.mapped / 1024) as nat)
        + " KiB mapped at 0x040000000000, canary "@ + hex0(m.canary_actual as nat, 8) + "/"@ + (if m.canary_actual
        == m.canary_expected { "verified"@ } else { "MISMATCH"@ }) + ", BAR size "@ + (if m.bar_size == 0 || m.bar_size
        == UNSIZED { "unknown"@ } else { size_text(m.bar_size) }) + ", enable="@ + dec(m.enable as nat)
}

/// Address of the byte that the task probes.
pub fn probe_address(m: &GpuMode) -> (r: u64)
    requires
        m.width <= 0xFFFF,
        m.height <= 0xFFFF,
    ensures
        r == probe_at(*m),
{
    let row: u64 = m.height / 2;
    assert(0 <= row * m.width <= 0xFFFF_FFFF) by (nonlinear_arith)
        requires
            0 <= row <= 0xFFFF,
            0 <= m.width <= 0xFFFF,
    ;
    FB_VADDR + row * m.width * MODE_BPP
}

fn mode_line(m: &GpuMode) -> (r: String)
    requires
        m.bpp <= 16,
    ensures
        r@ == mode_text(*m),
{
    let mut s = String::from_str("[gpu] task: mode ");
    push_geometry(&mut s, m.width, m.height, m.bpp * 8);
    s.append(" on ");
    push_hex_padded(&mut s, (m.ven_dev / 0x1_0000) as u64, 4);
    s.append(":");
    push_hex_padded(&mut s, (m.ven_dev % 0x1_0000) as u64, 4);
    s.append(", BAR");
    push_dec(&mut s, m.bar_idx as u64);
    s.append(" ");
    push_hex0(&mut s, m.bar_base as u64, 8);
    s.append(" (LFB ");
    push_hex0(&mut s, m.lfb_addr as u64, 8);
    s.append("), ");
    push_dec(&mut s, m.mapped / 1024);
    s.append(" KiB mapped at 0x040000000000, canary ");
    push_hex0(&mut s, m.canary_actual as u64, 8);
    s.append("/");
    s.append(if m.canary_actual == m.canary_expected { "verified" } else { "MISMATCH" });
    s.append(", BAR size ");
    if m.bar_size == 0 || m.bar_size == UNSIZED {
        s.append("unknown");
    } else {
        let t = size_str(m.bar_size);
        s.append(t.as_str());
    }
    s.append(", enable=");
    push_dec(&mut s, m.enable as u64);
    assert(s@ =~= mode_text(*m));
    s
}

/// The lines that the verification task prints: the registers, the probed
/// byte and the installed mode, or that there is no mode.
pub fn task_lines(g: &Gpu, rb: Regs, cpu: u64, byte: u8) -> (v: Vec<String>)
    requires
        g.mode matches Some(m) ==> m.width <= 0xFFFF && m.height <= 0xFFFF && m.bpp <= 16,
    ensures
        said(v@) == (match g.mode {
            None => seq![no_mode_text(g.fallbacks)],
            Some(m) => seq![registers_text(*g, rb, cpu), probe_text(m, byte), mode_text(m)],
        }),
{
    let mut v: Vec<String> = Vec::new();
    match g.mode {
        None => {
            let mut s = String::from_str("[gpu] task: no modeset (");
            push_dec(&mut s, g.fallbacks as u64);
            s.append(" fallback step(s)) - the bootloader framebuffer is live");
            v.push(s);
            assert(said(v@) =~= seq![no_mode_text(g.fallbacks)]);
        },
        Some(m) => {
            let mut s = String::from_str("[gpu] task: dispi registers from task context: ");
            push_geometry(&mut s, rb.xres as u64, rb.yres as u64, rb.bpp as u64);
            s.append(" enable=");
            push_dec(&mut s, rb.enable as u64);
            s.append(" (cpu ");
            push_dec(&mut s, cpu);
            s.append("); dispi id=");
            push_hex0(&mut s, g.dispi_id as u64, 4);
            s.append(" fallbacks=");
            push_dec(&mut s, g.fallbacks as u64);
            s.append(" rehearsals=");
            push_dec(&mut s, g.rehearsals as u64);
            s.append(" mode_present=");
            s.append(if g.mode_present() { "true" } else { "false" });
            assert(s@ =~= registers_text(*g, rb, cpu));
            v.push(s);
            let mut t = String::from_str("[gpu] task: LFB probe byte @");
            push_hex0(&mut t, probe_address(&m), 12);
            t.append(" row ");
            push_dec(&mut t, m.height / 2);
            t.append(" = ");
            push_hex0(&mut t, byte as u64, 2);
            t.append(" - mapping translates");
            assert(t@ =~= probe_text(m, byte));
            v.push(t);
            v.push(mode_line(&m));
            assert(said(v@) =~= seq![registers_text(*g, rb, cpu), probe_text(m, byte), mode_text(m)]);
        },
    }
    v
}

} // verus!
