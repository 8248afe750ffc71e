//! Drawing, the text console, the cursor and the display's bring-up.
use font8x8::legacy::BASIC_LEGACY;
use onyxos::framebuffer::{
    self, adopt, console_bytes, console_bytes_total, current_geometry, cursor_pos, draw_clock, draw_glyph, init_global,
    mark_all_dirty, mark_dirty_public, move_cursor, take_dirty_rect, Display, FrameBufferInfo, FrameBufferWriter,
    PixelFormat, Rect, TextConsole, CONSOLE_TOP, HEADER_BLUE, SLATE, WHITE,
};
use onyxos::gpu::{
    canary_points, canary_roundtrip, canary_value, map_page, map_plan, mode_matches, new_gpu, probe_address, task_lines,
    Action, Event, Gpu, Phase, Regs, Want, FB_VADDR, MODE_BYTES,
};
use onyxos::pci::{PciFunction, UNSIZED};

const W: u64 = 320;
const H: u64 = 200;

fn info() -> FrameBufferInfo {
    FrameBufferInfo { width: W, height: H, stride: W + 8, bytes_per_pixel: 4, pixel_format: PixelFormat::Bgr }
}

fn buffer() -> Vec<u8> {
    vec![0u8; ((W + 8) * H * 4) as usize]
}

fn pixel(fb: &[u8], x: u64, y: u64) -> u32 {
    let i = ((y * (W + 8) + x) * 4) as usize;
    (fb[i + 2] as u32) << 16 | (fb[i + 1] as u32) << 8 | fb[i] as u32
}

#[test]
fn damage_is_one_rectangle() {
    let mut d = None;
    assert_eq!(take_dirty_rect(&mut d), None);
    mark_dirty_public(&mut d, 4, 5, 3, 2);
    mark_dirty_public(&mut d, 1, 9, 1, 1);
    mark_dirty_public(&mut d, 50, 50, 0, 7);
    assert_eq!(d, Some(Rect { x0: 1, y0: 5, x1: 6, y1: 9 }));
    assert_eq!(take_dirty_rect(&mut d), Some(Rect { x0: 1, y0: 5, x1: 6, y1: 9 }));
    assert_eq!(d, None);
    mark_all_dirty(&mut d, W, H);
    assert_eq!(d, Some(Rect { x0: 0, y0: 0, x1: W - 1, y1: H - 1 }));
}

#[test]
fn glyphs_are_drawn_bit_by_bit() {
    let rows = BASIC_LEGACY['A' as usize];
    for s in 1..3u64 {
        let mut fb = buffer();
        let mut dirty = None;
        draw_glyph(&mut fb, &info(), &mut dirty, true, rows, 10, 20, s);
        for y in 0..8 * s {
            for x in 0..8 * s {
                let lit = rows[(y / s) as usize] >> (x / s) & 1 == 1;
                assert_eq!(pixel(&fb, 10 + x, 20 + y), if lit { WHITE } else { 0 });
            }
        }
        assert!(dirty.is_some());
    }
}

#[test]
fn the_header_and_its_title() {
    let mut w = FrameBufferWriter::new(buffer(), info());
    assert_eq!(pixel(&w.framebuffer, 0, 0), SLATE);
    assert_eq!(pixel(&w.framebuffer, W - 1, H - 1), SLATE);
    w.draw_header("Onyx");
    assert_eq!(pixel(&w.framebuffer, 0, 0), HEADER_BLUE);
    assert_eq!(pixel(&w.framebuffer, 0, 48), SLATE);
    let rows = BASIC_LEGACY['O' as usize];
    for y in 0..8u64 {
        for x in 0..8u64 {
            let lit = rows[y as usize] >> x & 1 == 1;
            assert_eq!(pixel(&w.framebuffer, 12 + x, 14 + y), if lit { WHITE } else { HEADER_BLUE });
        }
    }
    w.draw_clock("12:34:56");
    let x = W - (8 * 9 + 16);
    let one = BASIC_LEGACY['1' as usize];
    assert_eq!(pixel(&w.framebuffer, x + 3, 14) == WHITE, one[0] >> 3 & 1 == 1);
    w.write_str("a\nb");
    assert_eq!((w.x_pos, w.y_pos), (9, 66));
}

#[test]
fn other_pixel_formats() {
    let g = FrameBufferInfo { pixel_format: PixelFormat::Rgb, ..info() };
    let w = FrameBufferWriter::new(buffer(), g);
    assert_eq!(&w.framebuffer[..4], &[0x0E, 0x14, 0x20, 0]);
    let g = FrameBufferInfo { pixel_format: PixelFormat::U8, ..info() };
    let w = FrameBufferWriter::new(buffer(), g);
    assert_eq!(&w.framebuffer[..4], &[0x16, 0, 0, 0]);
    let g = FrameBufferInfo { width: 1600, height: 60, stride: 1600, bytes_per_pixel: 4, pixel_format: PixelFormat::Bgr };
    assert_eq!(FrameBufferWriter::new(vec![0; 1600 * 60 * 4], g).scale, 2);
}

#[test]
fn the_console_wraps_and_scrolls() {
    let mut fb = FrameBufferWriter::new(buffer(), info()).framebuffer;
    let mut dirty = None;
    let mut c = TextConsole::new(&mut fb, &mut dirty, info(), 1);
    assert_eq!((c.x, c.y), (0, CONSOLE_TOP));
    c.write_bytes(&mut fb, &mut dirty, b"top\n");
    assert_eq!((c.x, c.y), (0, CONSOLE_TOP + 10));
    let first = fb[(CONSOLE_TOP * (W + 8) * 4) as usize..((CONSOLE_TOP + 8) * (W + 8) * 4) as usize].to_vec();
    // As many lines as there is room for, then one more.
    while c.y + 20 < H {
        c.write_byte(&mut fb, &mut dirty, b'\n');
    }
    let before = c.y;
    c.write_byte(&mut fb, &mut dirty, b'\n');
    c.write_byte(&mut fb, &mut dirty, b'\n');
    assert!(c.y >= before);
    let now = fb[(CONSOLE_TOP * (W + 8) * 4) as usize..((CONSOLE_TOP + 8) * (W + 8) * 4) as usize].to_vec();
    assert_ne!(first, now);
    // A long line wraps.
    let y = c.y;
    c.write_bytes(&mut fb, &mut dirty, &[b'x'; 60]);
    assert!(c.x < W && c.y >= y.min(H - 10));
}

fn screen() -> Display {
    let mut d = Display::new();
    init_global(&mut d, FrameBufferWriter::new(buffer(), info()));
    d
}

fn pixels(d: &Display) -> Vec<u8> {
    d.writer.as_ref().unwrap().framebuffer.clone()
}

#[test]
fn the_cursor_leaves_no_trail() {
    let mut d = screen();
    assert_eq!(current_geometry(&d), (W, H, 4));
    let (x, y) = cursor_pos(&d);
    assert_eq!((x, y), (W / 2, H / 2));
    let start = pixels(&d);
    move_cursor(&mut d, 30, 20);
    assert_ne!(pixels(&d), start);
    move_cursor(&mut d, -30, -20);
    assert_eq!(cursor_pos(&d), (x, y));
    assert_eq!(pixels(&d), start);
}

#[test]
fn the_cursor_stays_on_the_screen() {
    let mut d = screen();
    move_cursor(&mut d, 5000, 5000);
    let (x, y) = cursor_pos(&d);
    assert!(x < W && y < H);
    move_cursor(&mut d, -50_000, -50_000);
    assert_eq!(cursor_pos(&d), (0, 0));
}

#[test]
fn printing_goes_under_the_cursor() {
    let mut d = screen();
    let mut e = screen();
    // With the cursor over the first line.
    move_cursor(&mut d, -5000, -5000);
    move_cursor(&mut d, 0, 40);
    let at = cursor_pos(&d);
    console_bytes(&mut d, b"hello under the cursor");
    assert_eq!(cursor_pos(&d), at);
    assert_eq!(console_bytes_total(&d), 22);
    move_cursor(&mut d, 5000, 5000);
    console_bytes(&mut e, b"hello under the cursor");
    move_cursor(&mut e, 5000, 5000);
    assert_eq!(pixels(&d), pixels(&e));
    assert!(d.dirty.is_some());
}

#[test]
fn the_clock_is_drawn_in_the_bar() {
    let mut d = screen();
    let before = pixels(&d);
    draw_clock(&mut d, "01:02:03");
    assert_ne!(pixels(&d), before);
}

#[test]
fn slow_moves_go_pixel_by_pixel() {
    let g = FrameBufferInfo { width: 1920, height: 1080, stride: 1920, bytes_per_pixel: 4, pixel_format: PixelFormat::Bgr };
    let mut d = Display::new();
    init_global(&mut d, FrameBufferWriter::new(vec![0; 1920 * 1080 * 4], g));
    assert_eq!(cursor_pos(&d), (960, 540));
    move_cursor(&mut d, 4, 0);
    move_cursor(&mut d, 4, 0);
    assert_eq!(cursor_pos(&d), (968, 540));
}

#[test]
fn another_surface_is_adopted() {
    let mut d = screen();
    let g = FrameBufferInfo { width: 640, height: 400, stride: 640, bytes_per_pixel: 4, pixel_format: PixelFormat::Bgr };
    adopt(&mut d, vec![0; 640 * 400 * 4], g);
    assert_eq!(current_geometry(&d), (640, 400, 4));
    let (x, y) = cursor_pos(&d);
    assert!(x < 640 && y < 400);
    assert_eq!(d.console.as_ref().unwrap().info, g);
    // The cursor waits for the first print or move.
    let at = 4 * (640 * y as usize + x as usize);
    let below = 4 * (640 * (y as usize + 40) + x as usize);
    assert_eq!(pixels(&d)[at..at + 4], pixels(&d)[below..below + 4]);
    move_cursor(&mut d, 30, 0);
    let (x, y) = cursor_pos(&d);
    let at = 4 * (640 * y as usize + x as usize);
    assert_ne!(pixels(&d)[at..at + 4], pixels(&d)[below..below + 4]);
    let mut none = Display::new();
    move_cursor(&mut none, 3, 3);
    assert_eq!(current_geometry(&none).0, 0);
    assert_eq!(framebuffer::cursor_pos(&none), cursor_pos(&none));
}

#[test]
fn the_first_print_on_an_adopted_surface_keeps_it() {
    let mut d = screen();
    let g = FrameBufferInfo { width: 640, height: 400, stride: 640, bytes_per_pixel: 4, pixel_format: PixelFormat::Bgr };
    adopt(&mut d, vec![0x55; 640 * 400 * 4], g);
    assert!(!d.drawn);
    let before = pixels(&d);
    let (x, y) = cursor_pos(&d);
    console_bytes(&mut d, b"");
    assert!(d.drawn);
    let after = pixels(&d);
    let mut changed = 0;
    for py in 0..400 {
        for px in 0..640 {
            let at = 4 * (640 * py + px);
            if after[at..at + 4] != before[at..at + 4] {
                let (cx, cy) = (px as u64, py as u64);
                assert!(x <= cx && cx < x + 16 && y <= cy && cy < y + 24);
                changed += 1;
            }
        }
    }
    // The arrow, not its whole box.
    assert!(0 < changed && changed < 16 * 24);
    // What was saved is what was on the screen.
    let at = 4 * (640 * y as usize + x as usize);
    assert_eq!(d.save[..4], before[at..at + 4]);
    assert_ne!(d.save[..4], [0u8; 4]);
    // Taken away again, the cursor leaves the screen as it was.
    move_cursor(&mut d, 400, 0);
    assert_eq!(pixels(&d)[at..at + 4], before[at..at + 4]);
}

fn vga() -> PciFunction {
    let mut bars = [(false, 0u32, 0u32); 6];
    bars[0] = (false, 0xFD00_0000, 0x100_0000);
    bars[2] = (false, 0xFEBF_0000, UNSIZED);
    PciFunction {
        bus: 0,
        device: 2,
        function: 0,
        vendor_id: 0x1234,
        device_id: 0x1111,
        class: 3,
        subclass: 0,
        prog_if: 0,
        bars,
    }
}

const GEO: (u64, u64, u64) = (1280, 720, 4);
const FOUND: Regs = Regs { xres: 1280, yres: 720, bpp: 32, enable: 0x41 };
const GOOD: Regs = Regs { xres: 1920, yres: 1080, bpp: 32, enable: 0x41 };
const BAD: Regs = Regs { xres: 1920, yres: 1080, bpp: 16, enable: 0x41 };

fn want(x: u16, y: u16, b: u16) -> Want {
    Want { xres: x, yres: y, bpp: b }
}

/// Bring-up with the answers of a device that works, up to `n` answers.
fn answers() -> Vec<Event> {
    vec![
        Event::Probed { id: 0xB0C5, revision: 0, vram_64k: 256 },
        Event::Mode(FOUND),
        Event::Mode(GOOD),
        Event::Mode(BAD),
        Event::Mode(GOOD),
        Event::Bar(0xFD00_0000),
        Event::Mapped(true),
        Event::Canary { expected: 0x1234, actual: 0x1234 },
        Event::Adopted,
    ]
}

fn run(events: &[Event]) -> (Gpu, Vec<Action>) {
    let mut g = new_gpu();
    let mut seen = vec![g.init(&vec![vga()]).action];
    for e in events {
        seen.push(g.advance(*e, GEO).action);
    }
    (g, seen)
}

#[test]
fn a_surface_off_the_page_is_not_taken() {
    let mut es = answers();
    es[5] = Event::Bar(0xFD00_0100);
    let (g, seen) = run(&es[..7]);
    assert_eq!(seen[7], Action::SetMode(want(1280, 720, 32)));
    assert!(!g.mode_present());
}

#[test]
fn a_display_is_brought_up() {
    let (g, seen) = run(&answers());
    assert_eq!(
        seen,
        vec![
            Action::Probe,
            Action::ReadMode,
            Action::SetMode(want(1920, 1080, 32)),
            Action::SetMode(want(1920, 1080, 16)),
            Action::SetMode(want(1920, 1080, 32)),
            Action::ReadBar(0),
            Action::MapSurface(0xFD00_0000),
            Action::Canary,
            Action::Adopt,
            Action::Stop,
        ]
    );
    assert_eq!((g.phase, g.fallbacks(), g.rehearsals(), g.dispi_id()), (Phase::Done, 0, 1, 0xB0C5));
    let m = g.mode().unwrap();
    assert!(g.mode_present());
    assert_eq!((m.ven_dev, m.width, m.height, m.bpp), (0x1234_1111, 1920, 1080, 4));
    assert_eq!((m.lfb_addr, m.bar_size, m.mapped), (0xFD00_0000, 0x100_0000, MODE_BYTES));
    assert_eq!(probe_address(&m), FB_VADDR + (1080 / 2) * 1920 * 4);
    assert!(!task_lines(&g, GOOD, 1, 0x20).is_empty());
}

#[test]
fn failures_put_the_found_mode_back() {
    // The live mode is refused.
    let mut ev = answers();
    ev[2] = Event::Mode(FOUND);
    let (_, seen) = run(&ev[..3]);
    assert_eq!(seen[3], Action::SetMode(want(1280, 720, 32)));
    // The surface cannot be mapped, or its memory does not hold.
    for (k, e) in [(6, Event::Mapped(false)), (7, Event::Canary { expected: 1, actual: 2 })] {
        let mut ev = answers();
        ev[k] = e;
        let (mut g, seen) = run(&ev[..k + 1]);
        assert_eq!(seen[k + 1], Action::SetMode(want(1280, 720, 32)));
        assert_eq!(g.advance(Event::Mode(FOUND), GEO).action, Action::Stop);
        assert_eq!((g.fallbacks(), g.mode_present()), (1, false));
    }
}

#[test]
fn machines_without_the_display() {
    let mut g = new_gpu();
    let s = g.init(&Vec::new());
    assert_eq!((s.action, s.lines.len(), g.fallbacks()), (Action::Stop, 1, 1));
    let (g, seen) = run(&[Event::Probed { id: 0xFFFF, revision: 0, vram_64k: 0 }]);
    assert_eq!(g.dispi_id(), 0);
    assert_eq!((seen[1], g.fallbacks(), g.mode_present()), (Action::Stop, 1, false));
    // An answer that was not asked for changes nothing.
    let (g, seen) = run(&[Event::Adopted]);
    assert_eq!((seen[1], g.phase), (Action::Stop, Phase::Probing));
}

#[test]
fn modes_are_compared_as_a_whole() {
    assert!(mode_matches(GOOD, want(1920, 1080, 32)));
    assert!(!mode_matches(BAD, want(1920, 1080, 32)));
    assert!(!mode_matches(Regs { enable: 0x40, ..GOOD }, want(1920, 1080, 32)));
}

#[test]
fn surfaces_are_mapped_and_proved() {
    assert_eq!(map_plan(0xFD00_0000, MODE_BYTES, true, false), Some(2025));
    assert_eq!(map_plan(0xFD00_0800, MODE_BYTES, true, false), None);
    assert_eq!(map_plan(0xFD00_0000, MODE_BYTES, false, false), None);
    assert_eq!(map_plan(0xFD00_0000, MODE_BYTES, true, true), None);
    assert_eq!(map_page(0xFD00_0000, 3), (FB_VADDR + 0x3000, 0xFD00_3000));
    assert_eq!(canary_value(5, 2), 0xA500_1005);
    assert_ne!(canary_value(1912, 540), canary_value(1912, 541));
    let points = canary_points(64, 32);
    assert_eq!(points.len(), 192);
    assert_eq!((points[0], points[1], points[2]), ((0, 0), (56, 24), (56, 16)));
    let mut fb: Vec<u8> = (0..64 * 32 * 4).map(|k| k as u8).collect();
    let (expected, actual) = canary_roundtrip(&mut fb, 64, &points);
    assert_eq!(expected, actual);
    assert_eq!(expected, points.iter().fold(0u32, |a, p| a.wrapping_add(canary_value(p.0, p.1))));
    let at = (16 * 64 + 56) * 4;
    assert_eq!(&fb[at..at + 4], &canary_value(56, 16).to_le_bytes());
    assert_eq!(fb[8 * 4], 32);
}
