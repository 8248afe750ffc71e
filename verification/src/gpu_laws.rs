//! How the display is brought up: which answers carry it on, which turn it back, and where the
//! canary is put.
use vstd::prelude::*;

use crate::gpu::{
    advanced, bogus, canary_point, canary_word, good, installed, offset_of, probe_at, put_back,
    started, Action, Event, Gpu, GpuMode, Phase, Regs, Want, Why,
};
use crate::pci::{display_of, PciFunction};

verus! {

/// The mode that is wanted has 1920 by 1080 pixels of 32 bits. A mode is in force where the
/// registers read back as wanted and bit 0 of the enable register is set.
pub proof fn law_wanted_mode(rb: Regs, w: Want)
    ensures
        good().xres == 1920 && good().yres == 1080 && good().bpp == 32,
        bogus().xres == 1920 && bogus().yres == 1080 && bogus().bpp == 16,
        crate::gpu::matches(rb, w) <==> rb.xres == w.xres && rb.yres == w.yres && rb.bpp == w.bpp && rb.enable % 2 == 1,
{
}

/// A machine without a display is left alone; the others are asked for their interface.
pub proof fn law_bring_up_starts(g: Gpu, devices: Seq<PciFunction>)
    ensures
        display_of(devices) is None ==> started(g, devices).action == Action::Stop && started(g, devices).gpu.mode
            == g.mode,
        display_of(devices) is Some ==> started(g, devices).action == Action::Probe && started(g, devices).gpu.dev
            == display_of(devices) && started(g, devices).gpu.phase == Phase::Probing,
{
}

/// The interface is the one that answers with an id from B0C0 to B0C5. Its mode is read before
/// anything is changed.
pub proof fn law_interface(g: Gpu, id: u16, revision: u16, vram_64k: u16, geo: (u64, u64, u64))
    requires
        g.phase == Phase::Probing,
    ensures
        ({
            let s = advanced(g, Event::Probed { id, revision, vram_64k }, geo);
            &&& s.action == Action::ReadMode <==> id as int / 16 == 0xB0C && id as int % 16 <= 5
            &&& s.action != Action::ReadMode ==> s.action == Action::Stop && s.gpu.phase == Phase::Done
            &&& s.action == Action::ReadMode ==> s.gpu.phase == Phase::Finding && s.gpu.dispi_id == id
                && s.gpu.revision == revision && s.gpu.vram_64k == vram_64k
        }),
{
}

/// From there on a read-back decides: first the wanted mode is set; where it is in force, one
/// that is not wanted is set, to see that the check finds it out; then the wanted one again,
/// and only where it is in force once more is the surface looked for.
#[verifier::spinoff_prover]
#[verifier::rlimit(40)]
pub proof fn law_modes_are_set(g: Gpu, rb: Regs, geo: (u64, u64, u64))
    ensures
        g.phase == Phase::Finding ==> {
            let s = advanced(g, Event::Mode(rb), geo);
            s.action == Action::SetMode(good()) && s.gpu.phase == Phase::Setting && s.gpu.saved == rb
        },
        g.phase == Phase::Setting && crate::gpu::matches(rb, good()) ==> {
            let s = advanced(g, Event::Mode(rb), geo);
            s.action == Action::SetMode(bogus()) && s.gpu.phase == Phase::Rehearsing && s.gpu.enable == rb.enable
        },
        g.phase == Phase::Rehearsing ==> {
            let s = advanced(g, Event::Mode(rb), geo);
            &&& s.action == Action::SetMode(good()) && s.gpu.phase == Phase::Resetting
            &&& crate::gpu::matches(rb, good()) ==> s.gpu.rehearsals == g.rehearsals
            &&& !crate::gpu::matches(rb, good()) && g.rehearsals < u32::MAX ==> s.gpu.rehearsals == g.rehearsals + 1
        },
        g.phase == Phase::Resetting && crate::gpu::matches(rb, good()) ==> {
            let s = advanced(g, Event::Mode(rb), geo);
            s.action is ReadBar && s.gpu.phase == Phase::Locating
        },
        (g.phase == Phase::Setting || g.phase == Phase::Resetting) && !crate::gpu::matches(rb, good()) ==> {
            let s = advanced(g, Event::Mode(rb), geo);
            &&& g.fallbacks < u32::MAX ==> s.gpu.fallbacks == g.fallbacks + 1
            &&& s.gpu.mode == g.mode
            &&& g.saved.xres == 0 && g.saved.yres == 0 && g.saved.bpp == 0 ==> s.action == Action::Stop
            &&& g.saved.xres != 0 ==> s.action == put_back(g.saved) && s.gpu.phase == Phase::Restoring
        },
{
}

/// The mode that was found is put back as it was: enabled where it was enabled.
pub proof fn law_found_mode_is_put_back(s: Regs)
    ensures
        s.enable % 2 == 1 ==> put_back(s) == Action::SetMode(Want { xres: s.xres, yres: s.yres, bpp: s.bpp }),
        s.enable % 2 == 0 ==> put_back(s) == Action::PutBack(Want { xres: s.xres, yres: s.yres, bpp: s.bpp }),
{
}

/// The surface lies where the region now says, else where it said before; it is mapped, if it
/// starts a page, and then written and read back.
pub proof fn law_surface(g: Gpu, fresh: u32, ok: bool, geo: (u64, u64, u64))
    ensures
        g.phase == Phase::Locating && fresh != 0 ==> advanced(g, Event::Bar(fresh), geo).action
            == Action::MapSurface(fresh),
        g.phase == Phase::Locating && fresh == 0 && g.cached_base != 0 ==> advanced(g, Event::Bar(fresh), geo).action
            == Action::MapSurface(g.cached_base),
        g.phase == Phase::Locating && fresh == 0 && g.cached_base == 0 ==> advanced(g, Event::Bar(fresh), geo).gpu.why
            == Why::NoBar,
        g.phase == Phase::Mapping ==> (advanced(g, Event::Mapped(ok), geo).action == Action::Canary <==> ok && g.lfb
            % 4096 == 0),
        g.phase == Phase::Mapping && advanced(g, Event::Mapped(ok), geo).action != Action::Canary ==> advanced(
            g,
            Event::Mapped(ok),
            geo,
        ).gpu.why == Why::NotMapped,
{
}

/// Only what reads back as it was written is adopted, and then the mode is told as it is.
pub proof fn law_adoption(g: Gpu, expected: u32, actual: u32, f: PciFunction, geo: (u64, u64, u64))
    ensures
        g.phase == Phase::Proving ==> (advanced(g, Event::Canary { expected, actual }, geo).action == Action::Adopt
            <==> expected == actual),
        g.phase == Phase::Proving && expected != actual ==> advanced(
            g,
            Event::Canary { expected, actual },
            geo,
        ).gpu.why == Why::Canary,
        g.phase == Phase::Adopting && g.dev == Some(f) ==> advanced(g, Event::Adopted, geo).gpu.mode == Some(
            installed(g, f),
        ),
        installed(g, f).width == 1920,
        installed(g, f).height == 1080,
        installed(g, f).bpp == 4,
        installed(g, f).mapped == 1920 * 1080 * 4,
        installed(g, f).ven_dev as int / 65536 == f.vendor_id,
        installed(g, f).ven_dev as int % 65536 == f.device_id,
        installed(g, f).lfb_addr == g.lfb,
        installed(g, f).enable == g.enable,
        g.cached_base != 0 ==> installed(g, f).bar_base == g.cached_base,
        g.cached_base == 0 ==> installed(g, f).bar_base == g.lfb,
{
}

/// The canary covers three squares of eight by eight pixels, each of them once: the upper left
/// corner, the lower right corner, and the right edge from the middle row on.
pub proof fn law_canary_squares(w: u64, h: u64, dx: int, dy: int)
    requires
        0 <= dx < 8,
        0 <= dy < 8,
    ensures
        canary_point(w, h, 3 * (8 * dy + dx)) == (dx, dy),
        canary_point(w, h, 3 * (8 * dy + dx) + 1) == (w - 8 + dx, h - 8 + dy),
        canary_point(w, h, 3 * (8 * dy + dx) + 2) == (w - 8 + dx, h / 2 + dy),
        0 <= 3 * (8 * dy + dx) + 2 < 192,
{
    let k = 8 * dy + dx;
    assert((3 * k) / 3 == k && (3 * k + 1) / 3 == k && (3 * k + 2) / 3 == k);
    assert((3 * k) % 3 == 0 && (3 * k + 1) % 3 == 1 && (3 * k + 2) % 3 == 2);
    assert(k % 8 == dx && k / 8 == dy);
}

/// A pixel's word has A5 in its top byte, and below it the column in eleven bits and the row
/// above them. Its place is four bytes a pixel, row after row.
pub proof fn law_canary_words(w: u64, x: u64, y: u64)
    requires
        x < 2048,
        y < 8192,
    ensures
        canary_word(x, y) == 0xA500_0000 + 2048 * y + x,
        offset_of(w, (x, y)) == 4 * (y * w + x),
{
    let a = x as u32;
    let b = y as u32;
    assert(0xA500_0000u32 | (b << 11) | a == 0xA500_0000u32 + 2048 * b + a) by (bit_vector)
        requires
            a < 2048,
            b < 8192,
    ;
    assert(y * (w * 4) + x * 4 == 4 * (y * w + x)) by (nonlinear_arith);
}

/// The byte that is probed later starts the middle row of the surface, where it is mapped.
pub proof fn law_probe_place(m: GpuMode)
    ensures
        probe_at(m) == 0x400_0000_0000 + 4 * ((m.height / 2) * m.width),
{
    assert((m.height / 2) * m.width * 4 == 4 * ((m.height / 2) * m.width)) by (nonlinear_arith);
}

} // verus!
