//! The pixel console: text, the header bar with its clock, the mouse cursor,
//! and the box of pixels that a present has yet to push.
//!
//! The screen is a byte buffer of rows of `stride` pixels, of which the first
//! `width` show. Text is drawn with the 8x8 glyphs of the `font8x8` crate.
use vstd::prelude::*;
use vstd::arithmetic::div_mod::{lemma_fundamental_div_mod, lemma_fundamental_div_mod_converse};

verus! {

/// How the colour of a pixel lies in its bytes.
#[derive(Clone, Copy, Debug, PartialEq, Eq, Structural)]
pub enum PixelFormat {
    Rgb,
    Bgr,
    /// One grey byte.
    U8,
    Other,
}

/// The layout of a screen.
#[derive(Clone, Copy, Debug, PartialEq, Eq, Structural)]
pub struct FrameBufferInfo {
    pub width: u64,
    pub height: u64,
    /// Pixels from one row to the next.
    pub stride: u64,
    pub bytes_per_pixel: u64,
    pub pixel_format: PixelFormat,
}

/// An inclusive box of pixels.
#[derive(Clone, Copy, Debug, PartialEq, Eq, Structural)]
pub struct Rect {
    pub x0: u64,
    pub y0: u64,
    pub x1: u64,
    pub y1: u64,
}

/// The largest row length and row count that a screen may have.
pub const MAX_DIM: u64 = 0x10_0000;

/// End of the coordinates at which anything is drawn.
pub const FAR: u64 = 0x1_0000_0000_0000;

/// Height of the header bar.
pub const HEADER_BAR_H: u64 = 48;

/// Colour of the header bar.
pub const HEADER_BLUE: u32 = 0x0B5ED7;

/// Colour of the background.
pub const SLATE: u32 = 0x0E1420;

/// Colour of the text.
pub const WHITE: u32 = 0xFFFFFF;

/// First row of the text console, just below the header bar.
pub const CONSOLE_TOP: u64 = 56;

/// The characters that have a glyph.
pub const MAX_ASCII: u32 = 128;

pub const CURSOR_W: u64 = 16;

pub const CURSOR_H: u64 = 24;

/// Bytes saved under the cursor: four for each of its pixels.
pub const SAVE_BYTES: u64 = 1536;

impl FrameBufferInfo {
    pub open spec fn wf(self) -> bool {
        &&& self.width <= self.stride <= MAX_DIM
        &&& self.height <= MAX_DIM
        &&& 1 <= self.bytes_per_pixel <= 16
        &&& 1 <= self.stride
    }

    /// Offset of the first byte of a pixel.
    pub open spec fn at(self, x: int, y: int) -> int {
        (y * self.stride + x) * self.bytes_per_pixel
    }

    /// Column of the pixel that byte `k` belongs to.
    pub open spec fn x_of(self, k: int) -> int {
        (k / self.bytes_per_pixel as int) % self.stride as int
    }

    /// Row of the pixel that byte `k` belongs to.
    pub open spec fn y_of(self, k: int) -> int {
        (k / self.bytes_per_pixel as int) / self.stride as int
    }

    /// Place of byte `k` in its pixel.
    pub open spec fn b_of(self, k: int) -> int {
        k % self.bytes_per_pixel as int
    }

    /// The pixel shows and lies whole in a buffer of `len` bytes.
    pub open spec fn visible(self, len: int, x: int, y: int) -> bool {
        &&& 0 <= x < self.width
        &&& 0 <= y < self.height
        &&& self.at(x, y) + self.bytes_per_pixel <= len
    }
}

/// Pixel offsets are not negative and are far from the end of the integers.
proof fn lemma_at(g: FrameBufferInfo, x: int, y: int)
    requires
        g.wf(),
        0 <= x < MAX_DIM,
        0 <= y < MAX_DIM,
    ensures
        0 <= y * g.stride <= 0x100_0000_0000,
        0 <= y * g.stride + x <= 0x200_0000_0000,
        0 <= g.at(x, y) <= 0x2000_0000_0000,
{
    assert(0 <= y * g.stride <= 0x10_0000 * 0x10_0000) by (nonlinear_arith)
        requires
            0 <= y < 0x10_0000,
            0 <= g.stride <= 0x10_0000,
    ;
    let p = y * g.stride + x;
    assert(0 <= p * g.bytes_per_pixel <= 0x200_0000_0000 * 16) by (nonlinear_arith)
        requires
            0 <= p <= 0x200_0000_0000,
            1 <= g.bytes_per_pixel <= 16,
    ;
}

/// Byte `k` belongs to exactly one pixel.
pub(crate) proof fn lemma_place(g: FrameBufferInfo, k: int)
    requires
        g.wf(),
        0 <= k,
    ensures
        k == g.at(g.x_of(k), g.y_of(k)) + g.b_of(k),
        0 <= g.x_of(k) < g.stride,
        0 <= g.y_of(k),
        0 <= g.b_of(k) < g.bytes_per_pixel,
{
    let bpp = g.bytes_per_pixel as int;
    let s = g.stride as int;
    lemma_fundamental_div_mod(k, bpp);
    assert(0 <= k / bpp) by (nonlinear_arith)
        requires
            0 <= k,
            1 <= bpp,
    ;
    lemma_fundamental_div_mod(k / bpp, s);
    let p = k / bpp;
    assert(0 <= p / s) by (nonlinear_arith)
        requires
            0 <= p,
            1 <= s,
    ;
    assert(s * (p / s) == (p / s) * s) by (nonlinear_arith);
    assert(bpp * p == p * bpp) by (nonlinear_arith);
}

/// The bytes of a pixel are the ones from its offset on.
pub(crate) proof fn lemma_cell(g: FrameBufferInfo, x: int, y: int)
    requires
        g.wf(),
        0 <= x < g.stride,
        0 <= y,
    ensures
        forall|k: int|
            0 <= k ==> (#[trigger] g.b_of(k) == k - g.at(x, y) && g.x_of(k) == x && g.y_of(k) == y
                <==> g.at(x, y) <= k < g.at(x, y) + g.bytes_per_pixel),
        forall|k: int| 0 <= k && g.x_of(k) == x && g.y_of(k) == y ==> #[trigger] g.b_of(k) == k - g.at(x, y),
        0 <= g.at(x, y),
{
    let bpp = g.bytes_per_pixel as int;
    let s = g.stride as int;
    let p = y * s + x;
    let a = g.at(x, y);
    assert(0 <= p) by (nonlinear_arith)
        requires
            0 <= y,
            0 <= x,
            1 <= s,
            p == y * s + x,
    ;
    assert(0 <= p * bpp) by (nonlinear_arith)
        requires
            0 <= p,
            1 <= bpp,
    ;
    assert forall|k: int| a <= k < a + bpp implies #[trigger] g.b_of(k) == k - a && g.x_of(k) == x
        && g.y_of(k) == y by {
        assert(k == bpp * p + (k - a)) by (nonlinear_arith)
            requires
                a == p * bpp,
        ;
        lemma_fundamental_div_mod_converse(k, bpp, p, k - a);
        assert(p == s * y + x) by (nonlinear_arith)
            requires
                p == y * s + x,
        ;
        lemma_fundamental_div_mod_converse(p, s, y, x);
    }
    assert forall|k: int| 0 <= k && g.x_of(k) == x && g.y_of(k) == y implies #[trigger] g.b_of(k) == k - a by {
        lemma_place(g, k);
    }
    assert forall|k: int|
        0 <= k && #[trigger] g.b_of(k) == k - a && g.x_of(k) == x && g.y_of(k) == y implies a <= k < a + bpp by {
        lemma_place(g, k);
    }
}

// ---------------------------------------------------------------------
// The box of damage
// ---------------------------------------------------------------------

pub open spec fn min(a: u64, b: u64) -> u64 {
    if a < b { a } else { b }
}

pub open spec fn max(a: u64, b: u64) -> u64 {
    if a > b { a } else { b }
}

/// The box that holds both.
pub open spec fn widened(d: Option<Rect>, r: Rect) -> Option<Rect> {
    match d {
        Some(a) => Some(
            Rect { x0: min(a.x0, r.x0), y0: min(a.y0, r.y0), x1: max(a.x1, r.x1), y1: max(a.y1, r.y1) },
        ),
        None => Some(r),
    }
}

/// The pixel lies in the box.
pub open spec fn inside(d: Option<Rect>, x: int, y: int) -> bool {
    d matches Some(r) && r.x0 <= x <= r.x1 && r.y0 <= y <= r.y1
}

fn mark_dirty_rect(dirty: &mut Option<Rect>, r: Rect)
    ensures
        *final(dirty) == widened(*old(dirty), r),
{
    *dirty = match *dirty {
        Some(a) => Some(
            Rect {
                x0: if a.x0 < r.x0 { a.x0 } else { r.x0 },
                y0: if a.y0 < r.y0 { a.y0 } else { r.y0 },
                x1: if a.x1 > r.x1 { a.x1 } else { r.x1 },
                y1: if a.y1 > r.y1 { a.y1 } else { r.y1 },
            },
        ),
        None => Some(r),
    };
}

/// The damage since the last call; `None` when nothing was drawn. The box
/// starts over empty.
pub fn take_dirty_rect(dirty: &mut Option<Rect>) -> (r: Option<Rect>)
    ensures
        r == *old(dirty),
        *final(dirty) is None,
{
    dirty.take()
}

/// Marks a whole surface of the given size.
pub fn mark_all_dirty(dirty: &mut Option<Rect>, width: u64, height: u64)
    ensures
        *final(dirty) == (if width == 0 || height == 0 {
            *old(dirty)
        } else {
            widened(*old(dirty), Rect { x0: 0, y0: 0, x1: (width - 1) as u64, y1: (height - 1) as u64 })
        }),
{
    if width == 0 || height == 0 {
        return;
    }
    mark_dirty_rect(dirty, Rect { x0: 0, y0: 0, x1: width - 1, y1: height - 1 });
}

/// Marks again what a flush failed to present, given by its corner and size.
pub fn mark_dirty_public(dirty: &mut Option<Rect>, x: u64, y: u64, w: u64, h: u64)
    requires
        x + w <= u64::MAX,
        y + h <= u64::MAX,
    ensures
        *final(dirty) == (if w == 0 || h == 0 {
            *old(dirty)
        } else {
            widened(*old(dirty), Rect { x0: x, y0: y, x1: (x + w - 1) as u64, y1: (y + h - 1) as u64 })
        }),
{
    if w == 0 || h == 0 {
        return;
    }
    mark_dirty_rect(dirty, Rect { x0: x, y0: y, x1: x + (w - 1), y1: y + (h - 1) });
}

/// Widening a box loses none of it and adds all of the new part.
pub proof fn law_no_damage_is_lost(d: Option<Rect>, r: Rect, x: int, y: int)
    requires
        inside(d, x, y) || inside(Some(r), x, y),
    ensures
        inside(widened(d, r), x, y),
{
}

// ---------------------------------------------------------------------
// Pixels
// ---------------------------------------------------------------------

/// The bytes of a screen and its damage.
#[verifier::ext_equal]
pub struct Canvas {
    pub fb: Seq<u8>,
    pub dirty: Option<Rect>,
}

pub open spec fn red(rgb: u32) -> u8 {
    (rgb / 0x1_0000 % 0x100) as u8
}

pub open spec fn green(rgb: u32) -> u8 {
    (rgb / 0x100 % 0x100) as u8
}

pub open spec fn blue(rgb: u32) -> u8 {
    (rgb % 0x100) as u8
}

pub open spec fn grey(rgb: u32) -> u8 {
    ((red(rgb) + green(rgb) + blue(rgb)) / 3) as u8
}

/// A pixel of the colour `rgb`, written at byte `i`.
pub open spec fn coloured(fb: Seq<u8>, f: PixelFormat, i: int, rgb: u32) -> Seq<u8> {
    match f {
        PixelFormat::Rgb => fb.update(i, red(rgb)).update(i + 1, green(rgb)).update(i + 2, blue(rgb)),
        PixelFormat::Bgr => fb.update(i, blue(rgb)).update(i + 1, green(rgb)).update(i + 2, red(rgb)),
        PixelFormat::U8 => fb.update(i, grey(rgb)),
        PixelFormat::Other => fb,
    }
}

/// One pixel set. What is off the screen or past the buffer is left out.
/// With `mark` the pixel is damage.
pub open spec fn plotted(c: Canvas, g: FrameBufferInfo, x: int, y: int, rgb: u32, mark: bool) -> Canvas {
    if x >= g.width || y >= g.height || g.at(x, y) + 3 > c.fb.len() {
        c
    } else {
        Canvas {
            fb: coloured(c.fb, g.pixel_format, g.at(x, y), rgb),
            dirty: if mark {
                widened(c.dirty, Rect { x0: x as u64, y0: y as u64, x1: x as u64, y1: y as u64 })
            } else {
                c.dirty
            },
        }
    }
}

/// The pixels `x0..x1` of row `y`, from the left.
pub open spec fn row_filled(
    c: Canvas,
    g: FrameBufferInfo,
    x0: int,
    x1: int,
    y: int,
    rgb: u32,
    mark: bool,
) -> Canvas
    decreases x1 - x0,
{
    if x1 <= x0 {
        c
    } else {
        plotted(row_filled(c, g, x0, x1 - 1, y, rgb, mark), g, x1 - 1, y, rgb, mark)
    }
}

/// The pixels of columns `x0..x1` in rows `y0..y1`.
pub open spec fn rect_filled(
    c: Canvas,
    g: FrameBufferInfo,
    x0: int,
    x1: int,
    y0: int,
    y1: int,
    rgb: u32,
    mark: bool,
) -> Canvas
    decreases y1 - y0,
{
    if y1 <= y0 {
        c
    } else {
        row_filled(rect_filled(c, g, x0, x1, y0, y1 - 1, rgb, mark), g, x0, x1, y1 - 1, rgb, mark)
    }
}

/// Bit `col` of a row of a glyph is set.
pub open spec fn lit(bits: u8, col: int) -> bool {
    (bits >> (col as u8)) & 1 == 1
}

/// The first `n` columns of one row of a glyph: every set bit is a block of
/// `s` by `s` pixels.
pub open spec fn bits_drawn(
    c: Canvas,
    g: FrameBufferInfo,
    bits: u8,
    x: int,
    y: int,
    s: int,
    mark: bool,
    n: int,
) -> Canvas
    decreases n,
{
    if n <= 0 {
        c
    } else {
        let d = bits_drawn(c, g, bits, x, y, s, mark, n - 1);
        if lit(bits, n - 1) {
            rect_filled(d, g, x + (n - 1) * s, x + (n - 1) * s + s, y, y + s, WHITE, mark)
        } else {
            d
        }
    }
}

/// The first `n` rows of a glyph at (x, y).
pub open spec fn glyph_drawn(
    c: Canvas,
    g: FrameBufferInfo,
    rows: Seq<u8>,
    x: int,
    y: int,
    s: int,
    mark: bool,
    n: int,
) -> Canvas
    decreases n,
{
    if n <= 0 {
        c
    } else {
        bits_drawn(glyph_drawn(c, g, rows, x, y, s, mark, n - 1), g, rows[n - 1], x, y + (n - 1) * s, s, mark, 8)
    }
}

/// The eight rows of the glyph of an ASCII character, as `font8x8` has them:
/// bit 0 of a row is its leftmost pixel.
pub uninterp spec fn glyph_rows(c: u8) -> Seq<u8>;

/// The glyph that `font8x8::legacy::BASIC_LEGACY` holds for the character.
/// The table has one entry of eight bytes for each of the characters below
/// 128; which pixels a glyph sets is the table's own matter.
#[verifier::external_body]
fn glyph(c: u8) -> (r: [u8; 8])
    requires
        c < 128,
    ensures
        r@ == glyph_rows(c),
{
    font8x8::legacy::BASIC_LEGACY[c as usize]
}

fn set_pixel(
    fb: &mut Vec<u8>,
    info: &FrameBufferInfo,
    dirty: &mut Option<Rect>,
    mark: bool,
    x: u64,
    y: u64,
    rgb: u32,
)
    requires
        info.wf(),
    ensures
        (Canvas { fb: final(fb)@, dirty: *final(dirty) }) == plotted(
            Canvas { fb: old(fb)@, dirty: *old(dirty) },
            *info,
            x as int,
            y as int,
            rgb,
            mark,
        ),
        final(fb)@.len() == old(fb)@.len(),
{
    if x >= info.width || y >= info.height {
        return;
    }
    proof {
        lemma_at(*info, x as int, y as int);
    }
    let i: u64 = (y * info.stride + x) * info.bytes_per_pixel;
    if i + 3 > fb.len() as u64 {
        return;
    }
    let i: usize = i as usize;
    let r: u8 = (rgb / 0x1_0000 % 0x100) as u8;
    let g: u8 = (rgb / 0x100 % 0x100) as u8;
    let b: u8 = (rgb % 0x100) as u8;
    match info.pixel_format {
        PixelFormat::Rgb => {
            fb[i] = r;
            fb[i + 1] = g;
            fb[i + 2] = b;
        },
        PixelFormat::Bgr => {
            fb[i] = b;
            fb[i + 1] = g;
            fb[i + 2] = r;
        },
        PixelFormat::U8 => {
            fb[i] = ((r as u32 + g as u32 + b as u32) / 3) as u8;
        },
        PixelFormat::Other => {},
    }
    if mark {
        mark_dirty_rect(dirty, Rect { x0: x, y0: y, x1: x, y1: y });
    }
}

fn fill_rect(
    fb: &mut Vec<u8>,
    info: &FrameBufferInfo,
    dirty: &mut Option<Rect>,
    mark: bool,
    x0: u64,
    x1: u64,
    y0: u64,
    y1: u64,
    rgb: u32,
)
    requires
        info.wf(),
    ensures
        (Canvas { fb: final(fb)@, dirty: *final(dirty) }) == rect_filled(
            Canvas { fb: old(fb)@, dirty: *old(dirty) },
            *info,
            x0 as int,
            x1 as int,
            y0 as int,
            y1 as int,
            rgb,
            mark,
        ),
        final(fb)@.len() == old(fb)@.len(),
{
    let ghost c = Canvas { fb: fb@, dirty: *dirty };
    let mut y: u64 = y0;
    while y < y1
        invariant
            info.wf(),
            y0 <= y,
            y0 <= y1 ==> y <= y1,
            y1 < y0 ==> y == y0,
            fb@.len() == c.fb.len(),
            (Canvas { fb: fb@, dirty: *dirty }) == rect_filled(
                c,
                *info,
                x0 as int,
                x1 as int,
                y0 as int,
                y as int,
                rgb,
                mark,
            ),
        decreases y1 - y,
    {
        let ghost d = Canvas { fb: fb@, dirty: *dirty };
        let mut x: u64 = x0;
        while x < x1
            invariant
                info.wf(),
                x0 <= x,
                x0 <= x1 ==> x <= x1,
                x1 < x0 ==> x == x0,
                fb@.len() == c.fb.len(),
                (Canvas { fb: fb@, dirty: *dirty }) == row_filled(d, *info, x0 as int, x as int, y as int, rgb, mark),
            decreases x1 - x,
        {
            set_pixel(fb, info, dirty, mark, x, y, rgb);
            x += 1;
        }
        assert((Canvas { fb: fb@, dirty: *dirty }) == row_filled(
            d,
            *info,
            x0 as int,
            x1 as int,
            y as int,
            rgb,
            mark,
        ));
        y += 1;
    }
}

/// Draws a glyph, given by its rows, with its corner at (x, y).
pub fn draw_glyph(
    fb: &mut Vec<u8>,
    info: &FrameBufferInfo,
    dirty: &mut Option<Rect>,
    mark: bool,
    rows: [u8; 8],
    x: u64,
    y: u64,
    s: u64,
)
    requires
        info.wf(),
        x < FAR,
        y < FAR,
        1 <= s <= 2,
    ensures
        (Canvas { fb: final(fb)@, dirty: *final(dirty) }) == glyph_drawn(
            Canvas { fb: old(fb)@, dirty: *old(dirty) },
            *info,
            rows@,
            x as int,
            y as int,
            s as int,
            mark,
            8,
        ),
        final(fb)@.len() == old(fb)@.len(),
{
    let ghost c = Canvas { fb: fb@, dirty: *dirty };
    let mut row: u64 = 0;
    while row < 8
        invariant
            info.wf(),
            x < FAR,
            y < FAR,
            1 <= s <= 2,
            row <= 8,
            fb@.len() == c.fb.len(),
            (Canvas { fb: fb@, dirty: *dirty }) == glyph_drawn(
                c,
                *info,
                rows@,
                x as int,
                y as int,
                s as int,
                mark,
                row as int,
            ),
        decreases 8 - row,
    {
        let ghost d = Canvas { fb: fb@, dirty: *dirty };
        let bits: u8 = rows[row as usize];
        assert(0 <= row * s <= 16) by (nonlinear_arith)
            requires
                row <= 8,
                1 <= s <= 2,
        ;
        let yy: u64 = y + row * s;
        let mut col: u8 = 0;
        while col < 8
            invariant
                info.wf(),
                x < FAR,
                y < FAR,
                yy == y + row * s,
                yy <= y + 16,
                1 <= s <= 2,
                row < 8,
                col <= 8,
                fb@.len() == c.fb.len(),
                (Canvas { fb: fb@, dirty: *dirty }) == bits_drawn(
                    d,
                    *info,
                    bits,
                    x as int,
                    yy as int,
                    s as int,
                    mark,
                    col as int,
                ),
            decreases 8 - col,
        {
            if (bits >> col) & 1 == 1 {
                assert(0 <= col * s <= 16) by (nonlinear_arith)
                    requires
                        col <= 8,
                        1 <= s <= 2,
                ;
                let xx: u64 = x + col as u64 * s;
                fill_rect(fb, info, dirty, mark, xx, xx + s, yy, yy + s, WHITE);
            }
            col += 1;
        }
        row += 1;
    }
}

// ---------------------------------------------------------------------
// Text
// ---------------------------------------------------------------------

/// A canvas and the place of the next glyph on it.
#[verifier::ext_equal]
pub struct Pen {
    pub canvas: Canvas,
    pub x: int,
    pub y: int,
}

/// A glyph at the pen, which then stands one pixel past it.
pub open spec fn char_drawn(p: Pen, g: FrameBufferInfo, s: int, c: u8) -> Pen {
    Pen { canvas: glyph_drawn(p.canvas, g, glyph_rows(c), p.x, p.y, s, false, 8), x: p.x + 9 * s, y: p.y }
}

/// The first `n` characters of a text. Only ASCII has glyphs; the rest is
/// skipped. With `breaks` a newline starts a new row.
pub open spec fn text_drawn(p: Pen, g: FrameBufferInfo, s: int, text: Seq<char>, breaks: bool, n: int) -> Pen
    decreases n,
{
    if n <= 0 {
        p
    } else {
        let q = text_drawn(p, g, s, text, breaks, n - 1);
        let c = text[n - 1];
        if breaks && c == '\n' {
            Pen { canvas: q.canvas, x: 0, y: q.y + 10 * s }
        } else if (c as u32) < MAX_ASCII {
            char_drawn(q, g, s, c as u8)
        } else {
            q
        }
    }
}

/// How many pixels a glyph pixel takes on a screen of this width.
pub open spec fn text_scale(width: u64) -> u64 {
    if width >= 1600 { 2 } else { 1 }
}

/// Draws text into a frame buffer.
pub struct FrameBufferWriter {
    pub framebuffer: Vec<u8>,
    pub info: FrameBufferInfo,
    pub x_pos: u64,
    pub y_pos: u64,
    /// 2 on wide panels, else 1: the text keeps its apparent size.
    pub scale: u64,
}

/// A screen of slate.
pub open spec fn blank(fb: Seq<u8>, g: FrameBufferInfo) -> Seq<u8> {
    rect_filled(Canvas { fb, dirty: None }, g, 0, g.width as int, 0, g.height as int, SLATE, false).fb
}

/// The header bar with its title.
pub open spec fn headed(fb: Seq<u8>, g: FrameBufferInfo, s: int, title: Seq<char>) -> Seq<u8> {
    let bar = rect_filled(
        Canvas { fb, dirty: None },
        g,
        0,
        g.width as int,
        0,
        min(HEADER_BAR_H, g.height) as int,
        HEADER_BLUE,
        false,
    );
    text_drawn(Pen { canvas: bar, x: 12, y: 14 }, g, s, title, false, title.len() as int).canvas.fb
}

/// Column of the clock: right-aligned with a margin.
pub open spec fn clock_x(g: FrameBufferInfo, s: int, n: int) -> int {
    let w = n * 9 * s + 16;
    if g.width > w { g.width - w } else { 0 }
}

/// The clock redrawn: its box is erased with the colour of the bar first.
pub open spec fn clocked(fb: Seq<u8>, g: FrameBufferInfo, s: int, text: Seq<char>) -> Seq<u8> {
    let x = clock_x(g, s, text.len() as int);
    let left = if x > 8 { x - 8 } else { 0 };
    let right = x + text.len() * 9 * s + 8;
    let erased = rect_filled(
        Canvas { fb, dirty: None },
        g,
        left,
        if right < g.width { right } else { g.width as int },
        8,
        if 14 + 8 * s + 6 < HEADER_BAR_H { 14 + 8 * s + 6 } else { HEADER_BAR_H as int },
        HEADER_BLUE,
        false,
    );
    text_drawn(Pen { canvas: erased, x, y: 14 }, g, s, text, false, text.len() as int).canvas.fb
}

impl FrameBufferWriter {
    pub open spec fn wf(self) -> bool {
        &&& self.info.wf()
        &&& self.scale == text_scale(self.info.width)
    }

    pub open spec fn pen(self) -> Pen {
        Pen {
            canvas: Canvas { fb: self.framebuffer@, dirty: None },
            x: self.x_pos as int,
            y: self.y_pos as int,
        }
    }

    /// A writer on the buffer, which is cleared to slate.
    pub fn new(framebuffer: Vec<u8>, info: FrameBufferInfo) -> (w: FrameBufferWriter)
        requires
            info.wf(),
        ensures
            w.wf(),
            w.info == info,
            w.framebuffer@ == blank(framebuffer@, info),
            w.framebuffer@.len() == framebuffer@.len(),
            w.x_pos == 0,
            w.y_pos == 0,
    {
        let scale: u64 = if info.width >= 1600 { 2 } else { 1 };
        let mut fb = framebuffer;
        let mut none: Option<Rect> = None;
        fill_rect(&mut fb, &info, &mut none, false, 0, info.width, 0, info.height, SLATE);
        FrameBufferWriter { framebuffer: fb, info, x_pos: 0, y_pos: 0, scale }
    }

    fn write_char(&mut self, c: u8)
        requires
            old(self).wf(),
            c < 128,
            old(self).x_pos < FAR,
            old(self).y_pos < FAR,
        ensures
            final(self).wf(),
            final(self).info == old(self).info,
            final(self).pen().canvas.fb == char_drawn(old(self).pen(), old(self).info, old(self).scale as int, c).canvas.fb,
            final(self).x_pos == old(self).x_pos + 9 * old(self).scale,
            final(self).y_pos == old(self).y_pos,
            final(self).framebuffer@.len() == old(self).framebuffer@.len(),
    {
        let rows = glyph(c);
        let mut none: Option<Rect> = None;
        draw_glyph(&mut self.framebuffer, &self.info, &mut none, false, rows, self.x_pos, self.y_pos, self.scale);
        self.x_pos += 9 * self.scale;
    }

    fn write_text(&mut self, s: &str, breaks: bool)
        requires
            old(self).wf(),
            old(self).x_pos + 18 * s@.len() < FAR,
            old(self).y_pos + 20 * s@.len() < FAR,
        ensures
            final(self).wf(),
            final(self).info == old(self).info,
            final(self).framebuffer@.len() == old(self).framebuffer@.len(),
            ({
                let p = text_drawn(
                    old(self).pen(),
                    old(self).info,
                    old(self).scale as int,
                    s@,
                    breaks,
                    s@.len() as int,
                );
                &&& final(self).framebuffer@ == p.canvas.fb
                &&& final(self).x_pos == p.x
                &&& final(self).y_pos == p.y
            }),
    {
        let ghost p0 = self.pen();
        let ghost g = self.info;
        let ghost sc = self.scale as int;
        let n: usize = s.unicode_len();
        let mut i: usize = 0;
        assert(text_drawn(p0, g, sc, s@, breaks, 0) == p0);
        while i < n
            invariant
                self.wf(),
                self.info == g,
                self.scale == sc,
                n == s@.len(),
                i <= n,
                p0.x + 18 * n < FAR,
                p0.y + 20 * n < FAR,
                0 <= self.x_pos <= p0.x + 18 * i,
                0 <= self.y_pos <= p0.y + 20 * i,
                self.framebuffer@.len() == p0.canvas.fb.len(),
                self.pen().canvas.fb == text_drawn(p0, g, sc, s@, breaks, i as int).canvas.fb,
                self.x_pos == text_drawn(p0, g, sc, s@, breaks, i as int).x,
                self.y_pos == text_drawn(p0, g, sc, s@, breaks, i as int).y,
                text_drawn(p0, g, sc, s@, breaks, i as int).canvas.dirty is None,
            decreases n - i,
        {
            let c = s.get_char(i);
            let ghost q = text_drawn(p0, g, sc, s@, breaks, i as int);
            assert(q == self.pen());
            if breaks && c == '\n' {
                self.x_pos = 0;
                self.y_pos += 10 * self.scale;
            } else if (c as u32) < MAX_ASCII {
                proof {
                    lemma_glyph_unmarked(q.canvas, g, glyph_rows(c as u8), q.x, q.y, sc, 8);
                }
                self.write_char(c as u8);
            }
            i += 1;
        }
    }

    /// Draws the header bar with the title and leaves the pen just below it.
    pub fn draw_header(&mut self, title: &str)
        requires
            old(self).wf(),
            12 + 20 * title@.len() + 14 < FAR,
        ensures
            final(self).wf(),
            final(self).info == old(self).info,
            final(self).framebuffer@ == headed(
                old(self).framebuffer@,
                old(self).info,
                old(self).scale as int,
                title@,
            ),
            final(self).framebuffer@.len() == old(self).framebuffer@.len(),
            final(self).x_pos == 0,
            final(self).y_pos == CONSOLE_TOP,
    {
        let bar_h: u64 = if HEADER_BAR_H < self.info.height { HEADER_BAR_H } else { self.info.height };
        let mut none: Option<Rect> = None;
        proof {
            lemma_rect_unmarked(
                Canvas { fb: self.framebuffer@, dirty: None },
                self.info,
                0,
                self.info.width as int,
                0,
                bar_h as int,
                HEADER_BLUE,
            );
        }
        fill_rect(&mut self.framebuffer, &self.info, &mut none, false, 0, self.info.width, 0, bar_h, HEADER_BLUE);
        self.x_pos = 12;
        self.y_pos = 14;
        self.write_text(title, false);
        self.x_pos = 0;
        self.y_pos = HEADER_BAR_H + 8;
    }

    /// Writes text at the pen.
    pub fn write_str(&mut self, s: &str)
        requires
            old(self).wf(),
            old(self).x_pos + 18 * s@.len() < FAR,
            old(self).y_pos + 20 * s@.len() < FAR,
        ensures
            final(self).wf(),
            final(self).info == old(self).info,
            final(self).framebuffer@.len() == old(self).framebuffer@.len(),
            ({
                let p = text_drawn(
                    old(self).pen(),
                    old(self).info,
                    old(self).scale as int,
                    s@,
                    true,
                    s@.len() as int,
                );
                &&& final(self).framebuffer@ == p.canvas.fb
                &&& final(self).x_pos == p.x
                &&& final(self).y_pos == p.y
            }),
    {
        self.write_text(s, true);
    }

    /// Draws the clock at the right of the header bar; the pen stays.
    pub fn draw_clock(&mut self, text: &str)
        requires
            old(self).wf(),
            MAX_DIM + 20 * text@.len() + 40 < FAR,
        ensures
            final(self).wf(),
            final(self).info == old(self).info,
            final(self).x_pos == old(self).x_pos,
            final(self).y_pos == old(self).y_pos,
            final(self).framebuffer@.len() == old(self).framebuffer@.len(),
            final(self).framebuffer@ == clocked(
                old(self).framebuffer@,
                old(self).info,
                old(self).scale as int,
                text@,
            ),
    {
        let s: u64 = self.scale;
        let n: u64 = text.unicode_len() as u64;
        let text_w: u64 = n * 9 * s;
        let width: u64 = self.info.width;
        let x: u64 = if width > text_w + 16 { width - (text_w + 16) } else { 0 };
        let left: u64 = if x > 8 { x - 8 } else { 0 };
        let right: u64 = if x + text_w + 8 < width { x + text_w + 8 } else { width };
        let low: u64 = if 14 + 8 * s + 6 < HEADER_BAR_H { 14 + 8 * s + 6 } else { HEADER_BAR_H };
        let mut none: Option<Rect> = None;
        proof {
            lemma_rect_unmarked(
                Canvas { fb: self.framebuffer@, dirty: None },
                self.info,
                left as int,
                right as int,
                8,
                low as int,
                HEADER_BLUE,
            );
        }
        fill_rect(&mut self.framebuffer, &self.info, &mut none, false, left, right, 8, low, HEADER_BLUE);
        let saved_x: u64 = self.x_pos;
        let saved_y: u64 = self.y_pos;
        self.x_pos = x;
        self.y_pos = 14;
        self.write_text(text, false);
        self.x_pos = saved_x;
        self.y_pos = saved_y;
    }
}

/// Without `mark` a fill leaves the damage as it is.
proof fn lemma_rect_unmarked(c: Canvas, g: FrameBufferInfo, x0: int, x1: int, y0: int, y1: int, rgb: u32)
    ensures
        rect_filled(c, g, x0, x1, y0, y1, rgb, false).dirty == c.dirty,
    decreases y1 - y0,
{
    if y1 > y0 {
        lemma_rect_unmarked(c, g, x0, x1, y0, y1 - 1, rgb);
        lemma_row_unmarked(rect_filled(c, g, x0, x1, y0, y1 - 1, rgb, false), g, x0, x1, y1 - 1, rgb);
    }
}

proof fn lemma_row_unmarked(c: Canvas, g: FrameBufferInfo, x0: int, x1: int, y: int, rgb: u32)
    ensures
        row_filled(c, g, x0, x1, y, rgb, false).dirty == c.dirty,
    decreases x1 - x0,
{
    if x1 > x0 {
        lemma_row_unmarked(c, g, x0, x1 - 1, y, rgb);
    }
}

proof fn lemma_bits_unmarked(c: Canvas, g: FrameBufferInfo, bits: u8, x: int, y: int, s: int, n: int)
    ensures
        bits_drawn(c, g, bits, x, y, s, false, n).dirty == c.dirty,
    decreases n,
{
    if n > 0 {
        lemma_bits_unmarked(c, g, bits, x, y, s, n - 1);
        let d = bits_drawn(c, g, bits, x, y, s, false, n - 1);
        lemma_rect_unmarked(d, g, x + (n - 1) * s, x + (n - 1) * s + s, y, y + s, WHITE);
    }
}

proof fn lemma_glyph_unmarked(c: Canvas, g: FrameBufferInfo, rows: Seq<u8>, x: int, y: int, s: int, n: int)
    ensures
        glyph_drawn(c, g, rows, x, y, s, false, n).dirty == c.dirty,
    decreases n,
{
    if n > 0 {
        lemma_glyph_unmarked(c, g, rows, x, y, s, n - 1);
        lemma_bits_unmarked(
            glyph_drawn(c, g, rows, x, y, s, false, n - 1),
            g,
            rows[n - 1],
            x,
            y + (n - 1) * s,
            s,
            8,
        );
    }
}

// ---------------------------------------------------------------------
// The scrolling console
// ---------------------------------------------------------------------

/// The console: text below the header bar that wraps and scrolls.
pub struct TextConsole {
    pub info: FrameBufferInfo,
    pub scale: u64,
    pub x: u64,
    pub y: u64,
    pub top: u64,
    pub bottom: u64,
}

/// Byte `b` of a pixel of the background.
pub open spec fn slate_byte(f: PixelFormat, b: int) -> u8 {
    match f {
        PixelFormat::Rgb => if b == 0 { 0x0Eu8 } else if b == 1 { 0x14u8 } else { 0x20u8 },
        PixelFormat::Bgr => if b == 0 { 0x20u8 } else if b == 1 { 0x14u8 } else { 0x0Eu8 },
        _ => if b == 0 { 0x16u8 } else { 0u8 },
    }
}

/// The full width of the rows `y0..=y1`.
pub open spec fn band(g: FrameBufferInfo, y0: int, y1: int) -> Rect {
    Rect {
        x0: 0,
        y0: y0 as u64,
        x1: if g.width == 0 { 0 } else { (g.width - 1) as u64 },
        y1: y1 as u64,
    }
}

/// Byte `k` with row `y` cleared.
pub open spec fn cleared_byte(fb: Seq<u8>, g: FrameBufferInfo, y: int, k: int) -> u8 {
    let x = g.x_of(k);
    if g.y_of(k) == y && x < g.width && g.at(x, y) + 3 <= fb.len() && g.b_of(k) < 3 {
        slate_byte(g.pixel_format, g.b_of(k))
    } else {
        fb[k]
    }
}

/// Row `y` cleared to slate; the whole row is damage.
pub open spec fn row_cleared(c: Canvas, g: FrameBufferInfo, y: int) -> Canvas {
    if y >= g.height {
        c
    } else {
        Canvas {
            fb: Seq::new(c.fb.len(), |k: int| cleared_byte(c.fb, g, y, k)),
            dirty: widened(c.dirty, band(g, y, y)),
        }
    }
}

/// The rows `y0..y1` cleared.
pub open spec fn rows_cleared(c: Canvas, g: FrameBufferInfo, y0: int, y1: int) -> Canvas
    decreases y1 - y0,
{
    if y1 <= y0 {
        c
    } else {
        row_cleared(rows_cleared(c, g, y0, y1 - 1), g, y1 - 1)
    }
}

/// Bytes of a row.
pub open spec fn row_bytes(g: FrameBufferInfo) -> int {
    g.stride * g.bytes_per_pixel
}

/// The rows below the header moved up by `px`.
pub open spec fn moved(fb: Seq<u8>, g: FrameBufferInfo, px: int) -> Seq<u8> {
    Seq::new(
        fb.len(),
        |k: int|
            if CONSOLE_TOP * row_bytes(g) <= k < (g.height - px) * row_bytes(g) {
                fb[k + px * row_bytes(g)]
            } else {
                fb[k]
            },
    )
}

/// The console scrolled up by `px` rows of pixels. All of it is damage.
pub open spec fn scrolled(c: Canvas, g: FrameBufferInfo, px: int) -> Canvas {
    let d = widened(c.dirty, band(g, CONSOLE_TOP as int, if g.height == 0 { 0 } else { g.height - 1 }));
    if px >= g.height - CONSOLE_TOP {
        rows_cleared(Canvas { fb: c.fb, dirty: d }, g, CONSOLE_TOP as int, g.height as int)
    } else {
        rows_cleared(Canvas { fb: moved(c.fb, g, px), dirty: d }, g, g.height - px, g.height as int)
    }
}

/// The console at the start of the next line.
pub open spec fn line_fed(p: Pen, g: FrameBufferInfo, s: int) -> Pen {
    if p.y + 10 * s >= g.height {
        Pen { canvas: scrolled(p.canvas, g, 10 * s), x: 0, y: g.height - 10 * s }
    } else {
        Pen { canvas: p.canvas, x: 0, y: p.y + 10 * s }
    }
}

/// A printed character: it wraps first where it would not fit.
pub open spec fn put_char(p: Pen, g: FrameBufferInfo, s: int, c: u8) -> Pen {
    let q = if p.x + 8 * s > g.width { line_fed(p, g, s) } else { p };
    Pen { canvas: glyph_drawn(q.canvas, g, glyph_rows(c), q.x, q.y, s, true, 8), x: q.x + 9 * s, y: q.y }
}

/// The cell before the pen cleared, if the line has one.
pub open spec fn rubbed_out(p: Pen, g: FrameBufferInfo, s: int) -> Pen {
    if p.x < 9 * s {
        p
    } else {
        Pen {
            canvas: rect_filled(
                p.canvas,
                g,
                p.x - 9 * s,
                if p.x < g.width { p.x } else { g.width as int },
                p.y,
                if p.y + 10 * s < g.height { p.y + 10 * s } else { g.height as int },
                SLATE,
                true,
            ),
            x: p.x - 9 * s,
            y: p.y,
        }
    }
}

/// One byte to the console. Control bytes other than carriage return,
/// newline, backspace and delete do nothing, as do bytes above ASCII.
pub open spec fn byte_put(p: Pen, g: FrameBufferInfo, s: int, b: u8) -> Pen {
    if b == 0x0D {
        Pen { canvas: p.canvas, x: 0, y: p.y }
    } else if b == 0x0A {
        line_fed(p, g, s)
    } else if b == 0x08 || b == 0x7F {
        rubbed_out(p, g, s)
    } else if 0x20 <= b < 0x7F {
        put_char(p, g, s, b)
    } else {
        p
    }
}

/// The first `n` bytes to the console.
pub open spec fn bytes_put(p: Pen, g: FrameBufferInfo, s: int, data: Seq<u8>, n: int) -> Pen
    decreases n,
{
    if n <= 0 {
        p
    } else {
        byte_put(bytes_put(p, g, s, data, n - 1), g, s, data[n - 1])
    }
}

/// The buffer holds every row of the screen.
pub open spec fn whole(g: FrameBufferInfo, len: int) -> bool {
    g.height * row_bytes(g) <= len
}

fn clear_row(fb: &mut Vec<u8>, info: &FrameBufferInfo, dirty: &mut Option<Rect>, y: u64)
    requires
        info.wf(),
    ensures
        (Canvas { fb: final(fb)@, dirty: *final(dirty) }) == row_cleared(
            Canvas { fb: old(fb)@, dirty: *old(dirty) },
            *info,
            y as int,
        ),
        final(fb)@.len() == old(fb)@.len(),
{
    if y >= info.height {
        return;
    }
    let ghost before = fb@;
    let ghost g = *info;
    let last: u64 = if info.width == 0 { 0 } else { info.width - 1 };
    mark_dirty_rect(dirty, Rect { x0: 0, y0: y, x1: last, y1: y });
    let bpp: u64 = info.bytes_per_pixel;
    let b0: u8 = match info.pixel_format {
        PixelFormat::Rgb => 0x0E,
        PixelFormat::Bgr => 0x20,
        _ => 0x16,
    };
    let b1: u8 = match info.pixel_format {
        PixelFormat::Rgb => 0x14,
        PixelFormat::Bgr => 0x14,
        _ => 0,
    };
    let b2: u8 = match info.pixel_format {
        PixelFormat::Rgb => 0x20,
        PixelFormat::Bgr => 0x0E,
        _ => 0,
    };
    let mut x: u64 = 0;
    while x < info.width
        invariant
            g == *info,
            g.wf(),
            bpp == g.bytes_per_pixel,
            y < g.height,
            x <= g.width,
            b0 == slate_byte(g.pixel_format, 0),
            b1 == slate_byte(g.pixel_format, 1),
            b2 == slate_byte(g.pixel_format, 2),
            fb@.len() == before.len(),
            forall|k: int|
                0 <= k < before.len() ==> #[trigger] fb@[k] == (if g.x_of(k) < x {
                    cleared_byte(before, g, y as int, k)
                } else {
                    before[k]
                }),
        decreases info.width - x,
    {
        proof {
            lemma_at(g, x as int, y as int);
            lemma_cell(g, x as int, y as int);
        }
        let ghost was = fb@;
        let i: u64 = (y * info.stride + x) * bpp;
        if i + 3 <= fb.len() as u64 {
            let i: usize = i as usize;
            fb[i] = b0;
            if bpp >= 2 {
                fb[i + 1] = b1;
            }
            if bpp >= 3 {
                fb[i + 2] = b2;
            }
        }
        assert forall|k: int| 0 <= k < before.len() implies #[trigger] fb@[k] == (if g.x_of(k) < x + 1 {
            cleared_byte(before, g, y as int, k)
        } else {
            before[k]
        }) by {
            lemma_place(g, k);
            let b = g.b_of(k);
            if g.x_of(k) == x && g.y_of(k) == y {
                assert(b == k - i);
            } else {
                assert(!(i <= k < i + bpp));
                assert(fb@[k] == was[k]);
            }
        }
        x += 1;
    }
    assert forall|k: int| 0 <= k < before.len() implies #[trigger] fb@[k] == cleared_byte(before, g, y as int, k) by {
    }
    assert(fb@ =~= row_cleared(Canvas { fb: before, dirty: *old(dirty) }, g, y as int).fb);
}

fn clear_rows(fb: &mut Vec<u8>, info: &FrameBufferInfo, dirty: &mut Option<Rect>, y0: u64, y1: u64)
    requires
        info.wf(),
        y1 <= MAX_DIM,
    ensures
        (Canvas { fb: final(fb)@, dirty: *final(dirty) }) == rows_cleared(
            Canvas { fb: old(fb)@, dirty: *old(dirty) },
            *info,
            y0 as int,
            y1 as int,
        ),
        final(fb)@.len() == old(fb)@.len(),
{
    let ghost c = Canvas { fb: fb@, dirty: *dirty };
    let mut y: u64 = y0;
    while y < y1
        invariant
            info.wf(),
            y0 <= y,
            y0 <= y1 ==> y <= y1,
            y1 < y0 ==> y == y0,
            fb@.len() == c.fb.len(),
            (Canvas { fb: fb@, dirty: *dirty }) == rows_cleared(c, *info, y0 as int, y as int),
        decreases y1 - y,
    {
        clear_row(fb, info, dirty, y);
        y += 1;
    }
}

fn scroll_up(fb: &mut Vec<u8>, info: &FrameBufferInfo, dirty: &mut Option<Rect>, px: u64)
    requires
        info.wf(),
        1 <= px,
        CONSOLE_TOP <= info.height,
        whole(*info, old(fb)@.len() as int),
    ensures
        (Canvas { fb: final(fb)@, dirty: *final(dirty) }) == scrolled(
            Canvas { fb: old(fb)@, dirty: *old(dirty) },
            *info,
            px as int,
        ),
        final(fb)@.len() == old(fb)@.len(),
{
    let ghost c = Canvas { fb: fb@, dirty: *dirty };
    let ghost g = *info;
    let last: u64 = if info.width == 0 { 0 } else { info.width - 1 };
    mark_dirty_rect(dirty, Rect { x0: 0, y0: CONSOLE_TOP, x1: last, y1: info.height - 1 });
    if px >= info.height - CONSOLE_TOP {
        clear_rows(fb, info, dirty, CONSOLE_TOP, info.height);
        return;
    }
    assert(g.stride * g.bytes_per_pixel <= 0x100_0000) by (nonlinear_arith)
        requires
            g.stride <= 0x10_0000,
            g.bytes_per_pixel <= 16,
    ;
    let rb: u64 = info.stride * info.bytes_per_pixel;
    let h: u64 = info.height;
    let n: usize = fb.len();
    assert(0 <= CONSOLE_TOP * rb <= (h - px) * rb && (h - px) * rb + px * rb == h * rb && h * rb
        <= 0x1000_0000_0000 && 0 <= px * rb) by (nonlinear_arith)
        requires
            56 <= h - px,
            CONSOLE_TOP == 56,
            1 <= px,
            h <= 0x10_0000,
            rb <= 0x100_0000,
            0 <= rb,
    ;
    let shift: u64 = px * rb;
    let end: u64 = (h - px) * rb;
    let mut k: u64 = CONSOLE_TOP * rb;
    while k < end
        invariant
            g == *info,
            CONSOLE_TOP * rb <= k <= end,
            rb == row_bytes(g),
            shift == px * rb,
            end == (h - px) * rb,
            h == g.height,
            end + shift <= fb@.len(),
            fb@.len() == n,
            1 <= px < h - CONSOLE_TOP,
            fb@.len() == c.fb.len(),
            forall|j: int|
                0 <= j < c.fb.len() ==> #[trigger] fb@[j] == (if CONSOLE_TOP * rb <= j < k {
                    c.fb[j + shift]
                } else {
                    c.fb[j]
                }),
        decreases end - k,
    {
        fb[k as usize] = fb[(k + shift) as usize];
        k += 1;
    }
    assert(fb@ =~= moved(c.fb, g, px as int));
    clear_rows(fb, info, dirty, h - px, h);
}

impl TextConsole {
    pub open spec fn wf(self) -> bool {
        &&& self.info.wf()
        &&& 1 <= self.scale <= 2
        &&& self.top == CONSOLE_TOP
        &&& self.bottom == self.info.height
        &&& self.x <= self.info.width + 18
        &&& self.y <= MAX_DIM
    }

    pub open spec fn pen(self, fb: Seq<u8>, dirty: Option<Rect>) -> Pen {
        Pen { canvas: Canvas { fb, dirty }, x: self.x as int, y: self.y as int }
    }

    /// A console on the buffer; its region is wiped.
    pub fn new(fb: &mut Vec<u8>, dirty: &mut Option<Rect>, info: FrameBufferInfo, scale: u64) -> (c: TextConsole)
        requires
            info.wf(),
            scale <= 2,
        ensures
            c.wf(),
            c.info == info,
            c.scale == max(scale, 1),
            c.x == 0,
            c.y == CONSOLE_TOP,
            (Canvas { fb: final(fb)@, dirty: *final(dirty) }) == rows_cleared(
                Canvas { fb: old(fb)@, dirty: *old(dirty) },
                info,
                CONSOLE_TOP as int,
                info.height as int,
            ),
            final(fb)@.len() == old(fb)@.len(),
    {
        let top: u64 = HEADER_BAR_H + 8;
        clear_rows(fb, &info, dirty, top, info.height);
        TextConsole {
            info,
            scale: if scale < 1 { 1 } else { scale },
            x: 0,
            y: top,
            top,
            bottom: info.height,
        }
    }

    fn newline(&mut self, fb: &mut Vec<u8>, dirty: &mut Option<Rect>)
        requires
            old(self).wf(),
            CONSOLE_TOP <= old(self).info.height,
            whole(old(self).info, old(fb)@.len() as int),
        ensures
            final(self).wf(),
            final(self).info == old(self).info,
            final(self).scale == old(self).scale,
            final(fb)@.len() == old(fb)@.len(),
            final(self).pen(final(fb)@, *final(dirty)) == line_fed(
                old(self).pen(old(fb)@, *old(dirty)),
                old(self).info,
                old(self).scale as int,
            ),
    {
        let h: u64 = 10 * self.scale;
        self.x = 0;
        if self.y + h >= self.bottom {
            scroll_up(fb, &self.info, dirty, h);
            self.y = self.bottom - h;
        } else {
            self.y = self.y + h;
        }
    }

    fn write_char(&mut self, fb: &mut Vec<u8>, dirty: &mut Option<Rect>, c: u8)
        requires
            old(self).wf(),
            c < 128,
            CONSOLE_TOP <= old(self).info.height,
            whole(old(self).info, old(fb)@.len() as int),
        ensures
            final(self).wf(),
            final(self).info == old(self).info,
            final(self).scale == old(self).scale,
            final(fb)@.len() == old(fb)@.len(),
            final(self).pen(final(fb)@, *final(dirty)) == put_char(
                old(self).pen(old(fb)@, *old(dirty)),
                old(self).info,
                old(self).scale as int,
                c,
            ),
    {
        if self.x + 8 * self.scale > self.info.width {
            self.newline(fb, dirty);
        }
        let rows = glyph(c);
        draw_glyph(fb, &self.info, dirty, true, rows, self.x, self.y, self.scale);
        self.x = self.x + 9 * self.scale;
    }

    fn backspace(&mut self, fb: &mut Vec<u8>, dirty: &mut Option<Rect>)
        requires
            old(self).wf(),
        ensures
            final(self).wf(),
            final(self).info == old(self).info,
            final(self).scale == old(self).scale,
            final(fb)@.len() == old(fb)@.len(),
            final(self).pen(final(fb)@, *final(dirty)) == rubbed_out(
                old(self).pen(old(fb)@, *old(dirty)),
                old(self).info,
                old(self).scale as int,
            ),
    {
        let gw: u64 = 9 * self.scale;
        if self.x >= gw {
            let right: u64 = if self.x < self.info.width { self.x } else { self.info.width };
            let low: u64 = if self.y + 10 * self.scale < self.bottom {
                self.y + 10 * self.scale
            } else {
                self.bottom
            };
            self.x = self.x - gw;
            fill_rect(fb, &self.info, dirty, true, self.x, right, self.y, low, SLATE);
        }
    }

    /// One byte to the console.
    pub fn write_byte(&mut self, fb: &mut Vec<u8>, dirty: &mut Option<Rect>, b: u8)
        requires
            old(self).wf(),
            CONSOLE_TOP <= old(self).info.height,
            whole(old(self).info, old(fb)@.len() as int),
        ensures
            final(self).wf(),
            final(self).info == old(self).info,
            final(self).scale == old(self).scale,
            final(fb)@.len() == old(fb)@.len(),
            final(self).pen(final(fb)@, *final(dirty)) == byte_put(
                old(self).pen(old(fb)@, *old(dirty)),
                old(self).info,
                old(self).scale as int,
                b,
            ),
    {
        if b == 0x0D {
            self.x = 0;
        } else if b == 0x0A {
            self.newline(fb, dirty);
        } else if b == 0x08 || b == 0x7F {
            self.backspace(fb, dirty);
        } else if b >= 0x20 && b < 0x7F {
            self.write_char(fb, dirty, b);
        }
    }

    /// Bytes to the console, in order.
    pub fn write_bytes(&mut self, fb: &mut Vec<u8>, dirty: &mut Option<Rect>, data: &[u8])
        requires
            old(self).wf(),
            CONSOLE_TOP <= old(self).info.height,
            whole(old(self).info, old(fb)@.len() as int),
        ensures
            final(self).wf(),
            final(self).info == old(self).info,
            final(self).scale == old(self).scale,
            final(fb)@.len() == old(fb)@.len(),
            final(self).pen(final(fb)@, *final(dirty)) == bytes_put(
                old(self).pen(old(fb)@, *old(dirty)),
                old(self).info,
                old(self).scale as int,
                data@,
                data@.len() as int,
            ),
    {
        let ghost p = self.pen(fb@, *dirty);
        let ghost g = self.info;
        let ghost s = self.scale as int;
        let mut i: usize = 0;
        while i < data.len()
            invariant
                self.wf(),
                self.info == g,
                self.scale == s,
                i <= data@.len(),
                CONSOLE_TOP <= g.height,
                fb@.len() == p.canvas.fb.len(),
                whole(g, fb@.len() as int),
                self.pen(fb@, *dirty) == bytes_put(p, g, s, data@, i as int),
            decreases data.len() - i,
        {
            self.write_byte(fb, dirty, data[i]);
            i += 1;
        }
    }
}

// ---------------------------------------------------------------------
// The mouse cursor
// ---------------------------------------------------------------------

/// Row of the cursor sprite: `X` is black outline, `#` white fill and `.`
/// transparent.
pub open spec fn cursor_line(row: int) -> Seq<char> {
    if row == 0 {
        "X..............."@
    } else if row == 1 {
        "XX.............."@
    } else if row == 2 {
        "X#X............."@
    } else if row == 3 {
        "X##X............"@
    } else if row == 4 {
        "X###X..........."@
    } else if row == 5 {
        "X####X.........."@
    } else if row == 6 {
        "X#####X........."@
    } else if row == 7 {
        "X######X........"@
    } else if row == 8 {
        "X#######X......."@
    } else if row == 9 {
        "X########X......"@
    } else if row == 10 {
        "X#########X....."@
    } else if row == 11 {
        "X##########X...."@
    } else if row == 12 {
        "X###########X..."@
    } else if row == 13 {
        "X#####XXXXXXX..."@
    } else if row == 14 {
        "X#X##X.........."@
    } else if row == 15 {
        "X##..X##X......."@
    } else if row == 16 {
        "X#....X##X......"@
    } else if row == 17 {
        "XX....X##X......"@
    } else if row == 18 {
        "......X##X......"@
    } else if row == 19 {
        ".......X##X....."@
    } else if row == 20 {
        ".......X##X....."@
    } else if row == 21 {
        "........X#X....."@
    } else if row == 22 {
        "........XX......"@
    } else {
        "................"@
    }
}

/// The sprite covers this pixel of its rectangle.
pub open spec fn covers(col: int, row: int) -> bool {
    0 <= col < CURSOR_W && 0 <= row < CURSOR_H && cursor_line(row)[col] != '.'
}

fn cursor_row(row: u64) -> (r: &'static str)
    requires
        row < CURSOR_H,
    ensures
        r@ == cursor_line(row as int),
        r@.len() == CURSOR_W,
{
    proof {
        reveal_strlit("X...............");
        reveal_strlit("XX..............");
        reveal_strlit("X#X.............");
        reveal_strlit("X##X............");
        reveal_strlit("X###X...........");
        reveal_strlit("X####X..........");
        reveal_strlit("X#####X.........");
        reveal_strlit("X######X........");
        reveal_strlit("X#######X.......");
        reveal_strlit("X########X......");
        reveal_strlit("X#########X.....");
        reveal_strlit("X##########X....");
        reveal_strlit("X###########X...");
        reveal_strlit("X#####XXXXXXX...");
        reveal_strlit("X#X##X..........");
        reveal_strlit("X##..X##X.......");
        reveal_strlit("X#....X##X......");
        reveal_strlit("XX....X##X......");
        reveal_strlit("......X##X......");
        reveal_strlit(".......X##X.....");
        reveal_strlit("........X#X.....");
        reveal_strlit("........XX......");
        reveal_strlit("................");
    }
    if row == 0 {
        "X..............."
    } else if row == 1 {
        "XX.............."
    } else if row == 2 {
        "X#X............."
    } else if row == 3 {
        "X##X............"
    } else if row == 4 {
        "X###X..........."
    } else if row == 5 {
        "X####X.........."
    } else if row == 6 {
        "X#####X........."
    } else if row == 7 {
        "X######X........"
    } else if row == 8 {
        "X#######X......."
    } else if row == 9 {
        "X########X......"
    } else if row == 10 {
        "X#########X....."
    } else if row == 11 {
        "X##########X...."
    } else if row == 12 {
        "X###########X..."
    } else if row == 13 {
        "X#####XXXXXXX..."
    } else if row == 14 {
        "X#X##X.........."
    } else if row == 15 {
        "X##..X##X......."
    } else if row == 16 {
        "X#....X##X......"
    } else if row == 17 {
        "XX....X##X......"
    } else if row == 18 {
        "......X##X......"
    } else if row == 19 {
        ".......X##X....."
    } else if row == 20 {
        ".......X##X....."
    } else if row == 21 {
        "........X#X....."
    } else if row == 22 {
        "........XX......"
    } else {
        "................"
    }
}

/// The pixel lies in the rectangle of a sprite at (x0, y0).
pub open spec fn under(x0: int, y0: int, x: int, y: int) -> bool {
    x0 <= x < x0 + CURSOR_W && y0 <= y < y0 + CURSOR_H
}

/// Where the save buffer keeps byte `b` of a pixel of the rectangle.
pub open spec fn slot(col: int, row: int, b: int) -> int {
    (row * 16 + col) * 4 + b
}

/// The first `n` cells of the sprite drawn at (x, y), row by row.
pub open spec fn arrow_drawn(fb: Seq<u8>, g: FrameBufferInfo, x: int, y: int, n: int) -> Seq<u8>
    decreases n,
{
    if n <= 0 {
        fb
    } else {
        let d = arrow_drawn(fb, g, x, y, n - 1);
        let c = cursor_line((n - 1) / 16)[(n - 1) % 16];
        if c == 'X' || c == '#' {
            plotted(
                Canvas { fb: d, dirty: None },
                g,
                x + (n - 1) % 16,
                y + (n - 1) / 16,
                if c == 'X' { 0 } else { WHITE },
                false,
            ).fb
        } else {
            d
        }
    }
}

/// The sprite drawn at (x, y).
pub open spec fn arrow(fb: Seq<u8>, g: FrameBufferInfo, x: int, y: int) -> Seq<u8> {
    arrow_drawn(fb, g, x, y, 384)
}

/// Byte `j` of the save buffer once the pixels under (x, y) are saved.
pub open spec fn saved_byte(fb: Seq<u8>, g: FrameBufferInfo, before: Seq<u8>, x: int, y: int, j: int) -> u8 {
    let fx = x + j / 4 % 16;
    let fy = y + j / 4 / 16;
    if g.visible(fb.len() as int, fx, fy) && j % 4 < g.bytes_per_pixel {
        fb[g.at(fx, fy) + j % 4]
    } else {
        before[j]
    }
}

/// The save buffer once the pixels under a sprite at (x, y) are saved.
pub open spec fn saved(fb: Seq<u8>, g: FrameBufferInfo, before: Seq<u8>, x: int, y: int) -> Seq<u8> {
    Seq::new(before.len(), |j: int| saved_byte(fb, g, before, x, y, j))
}

/// Byte `j` of the save buffer for a sprite that moved from (ox, oy) to
/// (nx, ny): where the two overlap it comes from the previous buffer.
pub open spec fn captured_byte(
    fb: Seq<u8>,
    g: FrameBufferInfo,
    prev: Seq<u8>,
    nx: int,
    ny: int,
    ox: int,
    oy: int,
    j: int,
) -> u8 {
    let fx = nx + j / 4 % 16;
    let fy = ny + j / 4 / 16;
    if g.visible(fb.len() as int, fx, fy) && j % 4 < g.bytes_per_pixel && under(ox, oy, fx, fy) {
        prev[slot(fx - ox, fy - oy, j % 4)]
    } else {
        saved_byte(fb, g, prev, nx, ny, j)
    }
}

pub open spec fn captured(
    fb: Seq<u8>,
    g: FrameBufferInfo,
    prev: Seq<u8>,
    nx: int,
    ny: int,
    ox: int,
    oy: int,
) -> Seq<u8> {
    Seq::new(prev.len(), |j: int| captured_byte(fb, g, prev, nx, ny, ox, oy, j))
}

/// Byte `k` of the screen with the sprite at (ox, oy) taken away, but for
/// what a sprite at `next` is about to cover.
pub open spec fn restored_byte(
    fb: Seq<u8>,
    g: FrameBufferInfo,
    save: Seq<u8>,
    ox: int,
    oy: int,
    next: Option<(int, int)>,
    k: int,
) -> u8 {
    let x = g.x_of(k);
    let y = g.y_of(k);
    if under(ox, oy, x, y) && g.visible(fb.len() as int, x, y) && g.b_of(k) < 4 && !(next matches Some(n) && covers(
        x - n.0,
        y - n.1,
    )) {
        save[slot(x - ox, y - oy, g.b_of(k))]
    } else {
        fb[k]
    }
}

pub open spec fn restored(
    fb: Seq<u8>,
    g: FrameBufferInfo,
    save: Seq<u8>,
    ox: int,
    oy: int,
    next: Option<(int, int)>,
) -> Seq<u8> {
    Seq::new(fb.len(), |k: int| restored_byte(fb, g, save, ox, oy, next, k))
}

/// The screen without the sprite at (x, y).
pub open spec fn lifted(fb: Seq<u8>, g: FrameBufferInfo, save: Seq<u8>, x: int, y: int) -> Seq<u8> {
    restored(fb, g, save, x, y, None)
}

/// Motion of one axis, in eighths of a pixel: slow motion is one to one, faster
/// motion counts for more, up to four times.
pub open spec fn gain(v: int) -> int {
    let a = if v < 0 { -v } else { v };
    if a <= 7 {
        8
    } else if a < 96 {
        8 + a / 4
    } else {
        32
    }
}

/// Slow motion is one to one, everyday motion twice and a flick four times as
/// far; a faster motion never counts for less.
pub proof fn law_gain_steps(v: int, w: int)
    ensures
        -7 <= v <= 7 ==> gain(v) == 8,
        v == 32 || v == -32 ==> gain(v) == 16,
        v >= 96 || v <= -96 ==> gain(v) == 32,
        0 <= v <= w ==> gain(v) <= gain(w),
        gain(-v) == gain(v),
{
}

/// Whole pixels of a motion, and what is left in eighths of a pixel.
pub open spec fn motion(acc: int, v: int) -> (int, int) {
    ((acc + v * gain(v)) / 8, (acc + v * gain(v)) % 8)
}

/// No motion is lost: the whole pixels and the rest are the motion scaled by
/// its gain.
pub proof fn law_motion_is_lossless(acc: int, v: int)
    ensures
        8 * motion(acc, v).0 + motion(acc, v).1 == acc + v * gain(v),
        0 <= motion(acc, v).1 < 8,
{
}

/// The largest motion that one packet may bring.
pub const MOTION_MAX: i32 = 0x3FF_FFFF;

fn apply_sensitivity(acc: i32, v: i32) -> (r: (i32, i32))
    requires
        0 <= acc < 8,
        -MOTION_MAX <= v <= MOTION_MAX,
    ensures
        r.0 == motion(acc as int, v as int).0,
        r.1 == motion(acc as int, v as int).1,
        0 <= r.1 < 8,
{
    let a: i32 = if v < 0 { -v } else { v };
    let g: i32 = if a <= 7 {
        8
    } else if a < 96 {
        8 + a / 4
    } else {
        32
    };
    let ghost gg = g as int;
    assert(-0x7FFF_FFE0 <= v * gg <= 0x7FFF_FFE0) by (nonlinear_arith)
        requires
            8 <= gg <= 32,
            -0x3FF_FFFF <= v <= 0x3FF_FFFF,
    ;
    let t: i32 = acc + v * g;
    let rest: i32 = t % 8;
    if rest < 0 {
        (t / 8 - 1, rest + 8)
    } else {
        (t / 8, rest)
    }
}

fn draw_arrow(fb: &mut Vec<u8>, info: &FrameBufferInfo, x: u64, y: u64)
    requires
        info.wf(),
        x <= MAX_DIM,
        y <= MAX_DIM,
    ensures
        final(fb)@ == arrow(old(fb)@, *info, x as int, y as int),
        final(fb)@.len() == old(fb)@.len(),
{
    let ghost before = fb@;
    let mut q: u64 = 0;
    while q < 384
        invariant
            info.wf(),
            x <= MAX_DIM,
            y <= MAX_DIM,
            q <= 384,
            fb@.len() == before.len(),
            fb@ == arrow_drawn(before, *info, x as int, y as int, q as int),
        decreases 384 - q,
    {
        let c = cursor_row(q / 16).get_char((q % 16) as usize);
        let mut none: Option<Rect> = None;
        if c == 'X' {
            set_pixel(fb, info, &mut none, false, x + q % 16, y + q / 16, 0);
        } else if c == '#' {
            set_pixel(fb, info, &mut none, false, x + q % 16, y + q / 16, WHITE);
        }
        q += 1;
    }
}

/// Copies `m` bytes of one buffer to another.
fn copy_bytes(from: &Vec<u8>, i: usize, to: &mut Vec<u8>, j: usize, m: usize)
    requires
        i + m <= from@.len(),
        j + m <= old(to)@.len(),
    ensures
        final(to)@.len() == old(to)@.len(),
        forall|k: int|
            0 <= k < old(to)@.len() ==> #[trigger] final(to)@[k] == (if j <= k < j + m {
                from@[i + k - j]
            } else {
                old(to)@[k]
            }),
{
    let ghost before = to@;
    let from_len: usize = from.len();
    let to_len: usize = to.len();
    let mut t: usize = 0;
    while t < m
        invariant
            t <= m,
            i + m <= from_len,
            from_len == from@.len(),
            j + m <= to_len,
            to_len == before.len(),
            to@.len() == before.len(),
            forall|k: int|
                0 <= k < before.len() ==> #[trigger] to@[k] == (if j <= k < j + t {
                    from@[i + k - j]
                } else {
                    before[k]
                }),
        decreases m - t,
    {
        to[j + t] = from[i + t];
        t += 1;
    }
}

fn save_region(fb: &Vec<u8>, info: &FrameBufferInfo, save: &mut Vec<u8>, x: u64, y: u64)
    requires
        info.wf(),
        x <= MAX_DIM,
        y <= MAX_DIM,
        old(save)@.len() == SAVE_BYTES,
    ensures
        final(save)@ == saved(fb@, *info, old(save)@, x as int, y as int),
        final(save)@.len() == SAVE_BYTES,
{
    let ghost before = save@;
    let ghost g = *info;
    let m: u64 = if info.bytes_per_pixel < 4 { info.bytes_per_pixel } else { 4 };
    let mut q: u64 = 0;
    while q < 384
        invariant
            g == *info,
            g.wf(),
            x <= MAX_DIM,
            y <= MAX_DIM,
            q <= 384,
            m == (if g.bytes_per_pixel < 4 { g.bytes_per_pixel } else { 4 }),
            before.len() == SAVE_BYTES,
            save@.len() == SAVE_BYTES,
            forall|j: int|
                0 <= j < SAVE_BYTES ==> #[trigger] save@[j] == (if j / 4 < q {
                    saved_byte(fb@, g, before, x as int, y as int, j)
                } else {
                    before[j]
                }),
        decreases 384 - q,
    {
        let fx: u64 = x + q % 16;
        let fy: u64 = y + q / 16;
        let ghost was = save@;
        if fx < info.width && fy < info.height {
            proof {
                lemma_at(g, fx as int, fy as int);
            }
            let i: u64 = (fy * info.stride + fx) * info.bytes_per_pixel;
            if i + info.bytes_per_pixel <= fb.len() as u64 {
                copy_bytes(fb, i as usize, save, (q * 4) as usize, m as usize);
            }
        }
        assert forall|j: int| 0 <= j < SAVE_BYTES implies #[trigger] save@[j] == (if j / 4 < q + 1 {
            saved_byte(fb@, g, before, x as int, y as int, j)
        } else {
            before[j]
        }) by {
            if j / 4 == q {
                assert(j == q * 4 + j % 4);
                assert(was[j] == before[j]);
            } else {
                assert(save@[j] == was[j]);
            }
        }
        q += 1;
    }
    assert(save@ =~= saved(fb@, g, before, x as int, y as int));
}

fn capture_save(
    fb: &Vec<u8>,
    info: &FrameBufferInfo,
    prev: &Vec<u8>,
    save: &mut Vec<u8>,
    nx: u64,
    ny: u64,
    ox: u64,
    oy: u64,
)
    requires
        info.wf(),
        nx <= MAX_DIM,
        ny <= MAX_DIM,
        ox <= MAX_DIM,
        oy <= MAX_DIM,
        prev@.len() == SAVE_BYTES,
        old(save)@ == prev@,
    ensures
        final(save)@ == captured(fb@, *info, prev@, nx as int, ny as int, ox as int, oy as int),
        final(save)@.len() == SAVE_BYTES,
{
    let ghost g = *info;
    let m: u64 = if info.bytes_per_pixel < 4 { info.bytes_per_pixel } else { 4 };
    let mut q: u64 = 0;
    while q < 384
        invariant
            g == *info,
            g.wf(),
            nx <= MAX_DIM,
            ny <= MAX_DIM,
            ox <= MAX_DIM,
            oy <= MAX_DIM,
            q <= 384,
            m == (if g.bytes_per_pixel < 4 { g.bytes_per_pixel } else { 4 }),
            prev@.len() == SAVE_BYTES,
            save@.len() == SAVE_BYTES,
            forall|j: int|
                0 <= j < SAVE_BYTES ==> #[trigger] save@[j] == (if j / 4 < q {
                    captured_byte(fb@, g, prev@, nx as int, ny as int, ox as int, oy as int, j)
                } else {
                    prev@[j]
                }),
        decreases 384 - q,
    {
        let fx: u64 = nx + q % 16;
        let fy: u64 = ny + q / 16;
        let ghost was = save@;
        if fx < info.width && fy < info.height {
            proof {
                lemma_at(g, fx as int, fy as int);
            }
            let i: u64 = (fy * info.stride + fx) * info.bytes_per_pixel;
            if i + info.bytes_per_pixel <= fb.len() as u64 {
                if ox <= fx && fx < ox + CURSOR_W && oy <= fy && fy < oy + CURSOR_H {
                    let s: u64 = ((fy - oy) * 16 + (fx - ox)) * 4;
                    copy_bytes(prev, s as usize, save, (q * 4) as usize, m as usize);
                } else {
                    copy_bytes(fb, i as usize, save, (q * 4) as usize, m as usize);
                }
            }
        }
        assert forall|j: int| 0 <= j < SAVE_BYTES implies #[trigger] save@[j] == (if j / 4 < q + 1 {
            captured_byte(fb@, g, prev@, nx as int, ny as int, ox as int, oy as int, j)
        } else {
            prev@[j]
        }) by {
            if j / 4 == q {
                assert(j == q * 4 + j % 4);
                assert(was[j] == prev@[j]);
            } else {
                assert(save@[j] == was[j]);
            }
        }
        q += 1;
    }
    assert(save@ =~= captured(fb@, g, prev@, nx as int, ny as int, ox as int, oy as int));
}

/// Cell of the sprite at (ox, oy) that byte `k` belongs to.
spec fn cell(g: FrameBufferInfo, ox: int, oy: int, k: int) -> int {
    (g.y_of(k) - oy) * 16 + (g.x_of(k) - ox)
}

spec fn pair(n: Option<(u64, u64)>) -> Option<(int, int)> {
    match n {
        Some(p) => Some((p.0 as int, p.1 as int)),
        None => None,
    }
}

fn restore(fb: &mut Vec<u8>, info: &FrameBufferInfo, save: &Vec<u8>, ox: u64, oy: u64, next: Option<(u64, u64)>)
    requires
        info.wf(),
        ox <= MAX_DIM,
        oy <= MAX_DIM,
        save@.len() == SAVE_BYTES,
    ensures
        final(fb)@ == restored(old(fb)@, *info, save@, ox as int, oy as int, pair(next)),
        final(fb)@.len() == old(fb)@.len(),
{
    let ghost before = fb@;
    let ghost g = *info;
    let ghost n = pair(next);
    let m: u64 = if info.bytes_per_pixel < 4 { info.bytes_per_pixel } else { 4 };
    let mut q: u64 = 0;
    while q < 384
        invariant
            g == *info,
            g.wf(),
            n == pair(next),
            ox <= MAX_DIM,
            oy <= MAX_DIM,
            q <= 384,
            m == (if g.bytes_per_pixel < 4 { g.bytes_per_pixel } else { 4 }),
            save@.len() == SAVE_BYTES,
            fb@.len() == before.len(),
            forall|k: int|
                0 <= k < before.len() ==> #[trigger] fb@[k] == (if cell(g, ox as int, oy as int, k) < q {
                    restored_byte(before, g, save@, ox as int, oy as int, n, k)
                } else {
                    before[k]
                }),
        decreases 384 - q,
    {
        let fx: u64 = ox + q % 16;
        let fy: u64 = oy + q / 16;
        let ghost was = fb@;
        let hidden = match next {
            Some(p) => fx >= p.0 && fy >= p.1 && fx - p.0 < CURSOR_W && fy - p.1 < CURSOR_H && cursor_row(
                fy - p.1,
            ).get_char((fx - p.0) as usize) != '.',
            None => false,
        };
        assert(hidden == (n matches Some(p) && covers(fx - p.0, fy - p.1)));
        proof {
            if fx < info.width {
                lemma_cell(g, fx as int, fy as int);
            }
        }
        if fx < info.width && fy < info.height && !hidden {
            proof {
                lemma_at(g, fx as int, fy as int);
            }
            let i: u64 = (fy * info.stride + fx) * info.bytes_per_pixel;
            if i + info.bytes_per_pixel <= fb.len() as u64 {
                copy_bytes(save, (q * 4) as usize, fb, i as usize, m as usize);
            }
        }
        assert forall|k: int| 0 <= k < before.len() implies #[trigger] fb@[k] == (if cell(
            g,
            ox as int,
            oy as int,
            k,
        ) < q + 1 {
            restored_byte(before, g, save@, ox as int, oy as int, n, k)
        } else {
            before[k]
        }) by {
            lemma_place(g, k);
            let x = g.x_of(k);
            let y = g.y_of(k);
            assert(was[k] == (if cell(g, ox as int, oy as int, k) < q {
                restored_byte(before, g, save@, ox as int, oy as int, n, k)
            } else {
                before[k]
            }));
            if x == fx && y == fy {
                assert(cell(g, ox as int, oy as int, k) == q);
                assert(g.b_of(k) == k - g.at(fx as int, fy as int));
                assert(slot(x - ox, y - oy, g.b_of(k)) == q * 4 + g.b_of(k));
            } else {
                assert(fb@[k] == was[k]);
                if cell(g, ox as int, oy as int, k) == q {
                    assert(!under(ox as int, oy as int, x, y));
                }
            }
        }
        q += 1;
    }
    assert forall|k: int| 0 <= k < before.len() implies #[trigger] fb@[k] == restored_byte(
        before,
        g,
        save@,
        ox as int,
        oy as int,
        n,
        k,
    ) by {
        if cell(g, ox as int, oy as int, k) >= 384 {
            assert(!under(ox as int, oy as int, g.x_of(k), g.y_of(k)));
        }
    }
    assert(fb@ =~= restored(before, g, save@, ox as int, oy as int, n));
}

/// What is on the screen and where the cursor is.
pub struct Display {
    pub writer: Option<FrameBufferWriter>,
    pub console: Option<TextConsole>,
    pub dirty: Option<Rect>,
    pub cur_x: u64,
    pub cur_y: u64,
    /// Motion that is not yet a whole pixel, in eighths of a pixel.
    pub acc_x8: i32,
    pub acc_y8: i32,
    /// The pixels under the cursor.
    pub save: Vec<u8>,
    /// Whether the cursor is on the screen.
    pub drawn: bool,
    pub console_total: u64,
}

/// The last place along an axis of `n` pixels at which a sprite of `size`
/// still fits.
pub open spec fn last_fit(n: u64, size: u64) -> u64 {
    if n > size { (n - size) as u64 } else { 0 }
}

/// The middle of an axis, or the last place that fits.
pub open spec fn middle(n: u64, size: u64) -> u64 {
    min(n / 2, last_fit(n, size))
}

pub open spec fn clamped(v: int, hi: u64) -> u64 {
    if v < 0 { 0 } else if v > hi { hi } else { v as u64 }
}

impl Display {
    pub open spec fn wf(self) -> bool {
        &&& self.save@.len() == SAVE_BYTES
        &&& 0 <= self.acc_x8 < 8
        &&& 0 <= self.acc_y8 < 8
        &&& self.cur_x <= MAX_DIM
        &&& self.cur_y <= MAX_DIM
        &&& match self.writer {
            Some(w) => {
                &&& w.wf()
                &&& self.console matches Some(c) && c.wf() && c.info == w.info && c.scale == w.scale
                &&& self.cur_x <= last_fit(w.info.width, CURSOR_W)
                &&& self.cur_y <= last_fit(w.info.height, CURSOR_H)
            },
            None => self.console is None,
        }
    }

    /// No screen yet.
    pub fn new() -> (d: Display)
        ensures
            d.wf(),
            d.writer is None,
            d.dirty is None,
            d.cur_x == 0,
            d.cur_y == 0,
            d.acc_x8 == 0,
            d.acc_y8 == 0,
            d.save@ == no_save(),
            !d.drawn,
            d.console_total == 0,
    {
        Display {
            writer: None,
            console: None,
            dirty: None,
            cur_x: 0,
            cur_y: 0,
            acc_x8: 0,
            acc_y8: 0,
            save: zeros(),
            drawn: false,
            console_total: 0,
        }
    }
}

fn zeros() -> (v: Vec<u8>)
    ensures
        v@ == no_save(),
{
    let mut v: Vec<u8> = Vec::new();
    while v.len() < 1536
        invariant
            v@.len() <= SAVE_BYTES,
            forall|j: int| 0 <= j < v@.len() ==> v@[j] == 0,
        decreases SAVE_BYTES - v@.len(),
    {
        v.push(0);
    }
    v
}

/// A save buffer that holds nothing yet.
pub open spec fn no_save() -> Seq<u8> {
    Seq::new(SAVE_BYTES as nat, |j: int| 0u8)
}

/// The display `b` is `a` with a screen installed that shows `fb`: a fresh
/// console below the header and the cursor at the centre. The boot screen shows
/// the cursor, over what it saved. On an adopted screen it is not drawn before
/// the first print or move, nothing is saved, and the whole screen is damage.
pub open spec fn installs(
    a: Display,
    fb: Seq<u8>,
    g: FrameBufferInfo,
    pen: (u64, u64),
    adopted: bool,
    b: Display,
) -> bool {
    let c = rows_cleared(Canvas { fb, dirty: a.dirty }, g, CONSOLE_TOP as int, g.height as int);
    let x = middle(g.width, CURSOR_W);
    let y = middle(g.height, CURSOR_H);
    &&& b.writer matches Some(v) && v.info == g && v.x_pos == pen.0 && v.y_pos == pen.1 && v.framebuffer@
        == if adopted {
        c.fb
    } else {
        arrow(c.fb, g, x as int, y as int)
    }
    &&& b.console matches Some(t) && t.x == 0 && t.y == CONSOLE_TOP
    &&& b.dirty == (if adopted && g.width > 0 && g.height > 0 {
        widened(c.dirty, band(g, 0, g.height - 1))
    } else {
        c.dirty
    })
    &&& b.cur_x == x
    &&& b.cur_y == y
    &&& b.save@ == if adopted {
        no_save()
    } else {
        saved(c.fb, g, a.save@, x as int, y as int)
    }
    &&& b.drawn == !adopted
    &&& b.acc_x8 == a.acc_x8
    &&& b.acc_y8 == a.acc_y8
    &&& b.console_total == a.console_total
}

/// Where a fresh cursor stands.
fn centre(info: &FrameBufferInfo) -> (r: (u64, u64))
    ensures
        r.0 == middle(info.width, CURSOR_W),
        r.1 == middle(info.height, CURSOR_H),
{
    let fit_x: u64 = if info.width > CURSOR_W { info.width - CURSOR_W } else { 0 };
    let fit_y: u64 = if info.height > CURSOR_H { info.height - CURSOR_H } else { 0 };
    let x: u64 = if info.width / 2 < fit_x { info.width / 2 } else { fit_x };
    let y: u64 = if info.height / 2 < fit_y { info.height / 2 } else { fit_y };
    (x, y)
}

/// Installs the writer of the boot screen and draws the cursor at its centre.
pub fn init_global(d: &mut Display, writer: FrameBufferWriter)
    requires
        old(d).wf(),
        writer.wf(),
    ensures
        final(d).wf(),
        installs(
            *old(d),
            writer.framebuffer@,
            writer.info,
            (writer.x_pos, writer.y_pos),
            false,
            *final(d),
        ),
        final(d).writer matches Some(v) && v.framebuffer@.len() == writer.framebuffer@.len(),
{
    let mut w = writer;
    let info = w.info;
    let (x, y) = centre(&info);
    let console = TextConsole::new(&mut w.framebuffer, &mut d.dirty, info, w.scale);
    d.cur_x = x;
    d.cur_y = y;
    save_region(&w.framebuffer, &info, &mut d.save, x, y);
    draw_arrow(&mut w.framebuffer, &info, x, y);
    d.drawn = true;
    d.writer = Some(w);
    d.console = Some(console);
}

/// Points the console at a new surface: it is cleared and gets a header and a
/// fresh console, and the cursor stands at its centre. All of it is damage.
pub fn adopt(d: &mut Display, framebuffer: Vec<u8>, info: FrameBufferInfo)
    requires
        old(d).wf(),
        info.wf(),
    ensures
        final(d).wf(),
        installs(
            *old(d),
            headed(blank(framebuffer@, info), info, text_scale(info.width) as int, "OnyxOS 0.1"@),
            info,
            (0, CONSOLE_TOP),
            true,
            *final(d),
        ),
        final(d).writer matches Some(v) && v.framebuffer@.len() == framebuffer@.len(),
{
    d.save = zeros();
    d.drawn = false;
    let mut w = FrameBufferWriter::new(framebuffer, info);
    proof {
        reveal_strlit("OnyxOS 0.1");
    }
    w.draw_header("OnyxOS 0.1");
    let (x, y) = centre(&info);
    let console = TextConsole::new(&mut w.framebuffer, &mut d.dirty, info, w.scale);
    d.cur_x = x;
    d.cur_y = y;
    d.writer = Some(w);
    d.console = Some(console);
    mark_all_dirty(&mut d.dirty, info.width, info.height);
}

/// Width, height and bytes per pixel of the screen; zeros before there is one.
pub fn current_geometry(d: &Display) -> (r: (u64, u64, u64))
    ensures
        r == (match d.writer {
            Some(w) => (w.info.width, w.info.height, w.info.bytes_per_pixel),
            None => (0u64, 0u64, 0u64),
        }),
{
    match &d.writer {
        Some(w) => (w.info.width, w.info.height, w.info.bytes_per_pixel),
        None => (0, 0, 0),
    }
}

/// Where the cursor is.
pub fn cursor_pos(d: &Display) -> (r: (u64, u64))
    ensures
        r == (d.cur_x, d.cur_y),
{
    (d.cur_x, d.cur_y)
}

/// Bytes shown on the console so far.
pub fn console_bytes_total(d: &Display) -> (r: u64)
    ensures
        r == d.console_total,
{
    d.console_total
}

/// Redraws the clock of the header bar.
pub fn draw_clock(d: &mut Display, text: &str)
    requires
        old(d).wf(),
        MAX_DIM + 20 * text@.len() + 40 < FAR,
    ensures
        final(d).wf(),
        match old(d).writer {
            None => *final(d) == *old(d),
            Some(w) => {
                &&& final(d).writer matches Some(v) && v.framebuffer@ == clocked(
                    w.framebuffer@,
                    w.info,
                    w.scale as int,
                    text@,
                ) && v.info == w.info && v.x_pos == w.x_pos && v.y_pos == w.y_pos
                &&& same_but_writer(*old(d), *final(d))
            },
        },
{
    match d.writer.take() {
        Some(mut w) => {
            w.draw_clock(text);
            d.writer = Some(w);
        },
        None => {},
    }
}

/// All but the writer is the same.
pub open spec fn same_but_writer(a: Display, b: Display) -> bool {
    b == (Display { writer: b.writer, ..a })
}

/// Where a motion takes the cursor.
pub open spec fn target(d: Display, g: FrameBufferInfo, dx: int, dy: int) -> (u64, u64) {
    (
        clamped(d.cur_x + motion(d.acc_x8 as int, dx).0, last_fit(g.width, CURSOR_W)),
        clamped(d.cur_y + motion(d.acc_y8 as int, dy).0, last_fit(g.height, CURSOR_H)),
    )
}

/// The display `b` is `a` after the motion of one packet. The cursor stays
/// whole on the screen; what is less than a pixel is kept for later.
pub open spec fn cursor_moves(a: Display, dx: int, dy: int, b: Display) -> bool {
    match a.writer {
        None => b == a,
        Some(w) => {
            let g = w.info;
            let n = target(a, g, dx, dy);
            let fb = w.framebuffer@;
            let ox = a.cur_x as int;
            let oy = a.cur_y as int;
            let nx = n.0 as int;
            let ny = n.1 as int;
            let cleaned = restored(fb, g, a.save@, ox, oy, Some((nx, ny)));
            &&& b.acc_x8 == motion(a.acc_x8 as int, dx).1
            &&& b.acc_y8 == motion(a.acc_y8 as int, dy).1
            &&& b.cur_x == n.0
            &&& b.cur_y == n.1
            &&& b.drawn == (a.drawn || nx != ox || ny != oy)
            &&& b.dirty == a.dirty
            &&& b.console == a.console
            &&& b.console_total == a.console_total
            &&& b.writer matches Some(v) && v.info == g && v.x_pos == w.x_pos && v.y_pos == w.y_pos && v.framebuffer@
                == (if nx == ox && ny == oy { fb } else { arrow(cleaned, g, nx, ny) })
            &&& b.save@ == (if nx == ox && ny == oy { a.save@ } else {
                captured(cleaned, g, a.save@, nx, ny, ox, oy)
            })
        },
    }
}

/// Applies a motion of the mouse and redraws the cursor.
pub fn move_cursor(d: &mut Display, dx: i32, dy: i32)
    requires
        old(d).wf(),
        -MOTION_MAX <= dx <= MOTION_MAX,
        -MOTION_MAX <= dy <= MOTION_MAX,
    ensures
        final(d).wf(),
        cursor_moves(*old(d), dx as int, dy as int, *final(d)),
{
    match d.writer.take() {
        Some(mut w) => {
            let info = w.info;
            let old_x: u64 = d.cur_x;
            let old_y: u64 = d.cur_y;
            let (mdx, ax) = apply_sensitivity(d.acc_x8, dx);
            let (mdy, ay) = apply_sensitivity(d.acc_y8, dy);
            d.acc_x8 = ax;
            d.acc_y8 = ay;
            let max_x: u64 = if info.width > CURSOR_W { info.width - CURSOR_W } else { 0 };
            let max_y: u64 = if info.height > CURSOR_H { info.height - CURSOR_H } else { 0 };
            let nx: u64 = clamp(old_x as i64 + mdx as i64, max_x);
            let ny: u64 = clamp(old_y as i64 + mdy as i64, max_y);
            if nx != old_x || ny != old_y {
                let mut prev: Vec<u8> = Vec::new();
                while prev.len() < 1536
                    invariant
                        d.save@.len() == SAVE_BYTES,
                        prev@.len() <= SAVE_BYTES,
                        prev@ =~= d.save@.take(prev@.len() as int),
                    decreases SAVE_BYTES - prev@.len(),
                {
                    prev.push(d.save[prev.len()]);
                }
                assert(prev@ =~= d.save@);
                restore(&mut w.framebuffer, &info, &prev, old_x, old_y, Some((nx, ny)));
                capture_save(&w.framebuffer, &info, &prev, &mut d.save, nx, ny, old_x, old_y);
                draw_arrow(&mut w.framebuffer, &info, nx, ny);
                d.cur_x = nx;
                d.cur_y = ny;
                d.drawn = true;
            }
            d.writer = Some(w);
        },
        None => {},
    }
}

fn clamp(v: i64, hi: u64) -> (r: u64)
    requires
        hi <= MAX_DIM,
    ensures
        r == clamped(v as int, hi),
{
    if v < 0 {
        0
    } else if v > hi as i64 {
        hi
    } else {
        v as u64
    }
}

/// The console can be written to: there is room below the header, and the
/// buffer holds the whole screen.
pub open spec fn can_print(d: Display) -> bool {
    d.writer matches Some(w) ==> CONSOLE_TOP <= w.info.height && whole(w.info, w.framebuffer@.len() as int)
}

/// The screen with the cursor taken away, where it is drawn.
pub open spec fn beneath(d: Display) -> Seq<u8>
    recommends
        d.writer is Some,
{
    let w = d.writer->0;
    if d.drawn {
        lifted(w.framebuffer@, w.info, d.save@, d.cur_x as int, d.cur_y as int)
    } else {
        w.framebuffer@
    }
}

/// The display `b` is `a` with the bytes on its console. A cursor that is drawn
/// in the console is lifted first; one that stands there is drawn after, over
/// what it then hides.
pub open spec fn console_shows(a: Display, data: Seq<u8>, b: Display) -> bool {
    match (a.writer, a.console) {
        (Some(w), Some(t)) => {
            let g = w.info;
            let x = a.cur_x as int;
            let y = a.cur_y as int;
            let down = y >= CONSOLE_TOP;
            let bare = if down { beneath(a) } else { w.framebuffer@ };
            let p = bytes_put(t.pen(bare, a.dirty), g, t.scale as int, data, data.len() as int);
            &&& b.writer matches Some(v) && v.info == g && v.x_pos == w.x_pos && v.y_pos == w.y_pos && v.framebuffer@
                == (if down { arrow(p.canvas.fb, g, x, y) } else { p.canvas.fb })
            &&& b.console matches Some(u) && u.x == p.x && u.y == p.y
            &&& b.dirty == p.canvas.dirty
            &&& b.save@ == (if down { saved(p.canvas.fb, g, a.save@, x, y) } else { a.save@ })
            &&& b.drawn == (a.drawn || down)
            &&& b.cur_x == a.cur_x
            &&& b.cur_y == a.cur_y
            &&& b.acc_x8 == a.acc_x8
            &&& b.acc_y8 == a.acc_y8
            &&& b.console_total == (a.console_total + data.len()) % 0x1_0000_0000_0000_0000
        },
        _ => b == a,
    }
}

/// Shows bytes on the console and keeps the pixels under the cursor in step.
pub fn console_bytes(d: &mut Display, data: &[u8])
    requires
        old(d).wf(),
        can_print(*old(d)),
    ensures
        final(d).wf(),
        console_shows(*old(d), data@, *final(d)),
{
    let writer = d.writer.take();
    let console = d.console.take();
    match (writer, console) {
        (Some(mut w), Some(mut t)) => {
            let info = w.info;
            let down = d.cur_y >= HEADER_BAR_H + 8;
            if down && d.drawn {
                restore(&mut w.framebuffer, &info, &d.save, d.cur_x, d.cur_y, None);
            }
            t.write_bytes(&mut w.framebuffer, &mut d.dirty, data);
            d.console_total = d.console_total.wrapping_add(data.len() as u64);
            if down {
                save_region(&w.framebuffer, &info, &mut d.save, d.cur_x, d.cur_y);
                draw_arrow(&mut w.framebuffer, &info, d.cur_x, d.cur_y);
                d.drawn = true;
            }
            d.writer = Some(w);
            d.console = Some(t);
        },
        (w, t) => {
            d.writer = w;
            d.console = t;
        },
    }
}

// ---------------------------------------------------------------------
// Laws
// ---------------------------------------------------------------------

/// Writing a pixel touches the bytes of that pixel alone.
pub open spec fn apart(g: FrameBufferInfo) -> bool {
    g.bytes_per_pixel >= 3 || g.pixel_format == PixelFormat::U8 || g.pixel_format == PixelFormat::Other
}

/// A set pixel changes its own first three bytes at most.
proof fn lemma_plotted(c: Canvas, g: FrameBufferInfo, x: int, y: int, rgb: u32, mark: bool)
    requires
        g.wf(),
        apart(g),
        0 <= x,
        0 <= y,
    ensures
        plotted(c, g, x, y, rgb, mark).fb.len() == c.fb.len(),
        forall|k: int|
            0 <= k < c.fb.len() && !(g.x_of(k) == x && g.y_of(k) == y && x < g.width && y < g.height && g.b_of(k) < 3)
                ==> #[trigger] plotted(c, g, x, y, rgb, mark).fb[k] == c.fb[k],
{
    if x < g.width && y < g.height {
        lemma_cell(g, x, y);
        assert forall|k: int|
            0 <= k < c.fb.len() && !(g.x_of(k) == x && g.y_of(k) == y && g.b_of(k) < 3) implies #[trigger] plotted(
            c,
            g,
            x,
            y,
            rgb,
            mark,
        ).fb[k] == c.fb[k] by {
            lemma_place(g, k);
            let b = g.b_of(k);
            assert(b == k - g.at(x, y) && g.x_of(k) == x && g.y_of(k) == y <==> g.at(x, y) <= k < g.at(x, y)
                + g.bytes_per_pixel);
        }
    }
}

/// The sprite changes the first three bytes of the pixels under it at most.
proof fn lemma_arrow(fb: Seq<u8>, g: FrameBufferInfo, x: int, y: int, n: int)
    requires
        g.wf(),
        apart(g),
        0 <= x,
        0 <= y,
        n <= 384,
    ensures
        arrow_drawn(fb, g, x, y, n).len() == fb.len(),
        forall|k: int|
            0 <= k < fb.len() && !(under(x, y, g.x_of(k), g.y_of(k)) && g.x_of(k) < g.width && g.y_of(k) < g.height
                && g.b_of(k) < 3) ==> #[trigger] arrow_drawn(fb, g, x, y, n)[k] == fb[k],
    decreases n,
{
    if n > 0 {
        lemma_arrow(fb, g, x, y, n - 1);
        let d = arrow_drawn(fb, g, x, y, n - 1);
        let c = cursor_line((n - 1) / 16)[(n - 1) % 16];
        if c == 'X' || c == '#' {
            lemma_plotted(
                Canvas { fb: d, dirty: None },
                g,
                x + (n - 1) % 16,
                y + (n - 1) / 16,
                if c == 'X' { 0 } else { WHITE },
                false,
            );
        }
        assert forall|k: int|
            0 <= k < fb.len() && !(under(x, y, g.x_of(k), g.y_of(k)) && g.x_of(k) < g.width && g.y_of(k) < g.height
                && g.b_of(k) < 3) implies #[trigger] arrow_drawn(fb, g, x, y, n)[k] == fb[k] by {
            assert(d[k] == fb[k]);
        }
    }
}

/// Every pixel of the screen lies in a whole buffer.
proof fn lemma_whole(g: FrameBufferInfo, len: int, x: int, y: int)
    requires
        g.wf(),
        whole(g, len),
        0 <= x < g.width,
        0 <= y < g.height,
    ensures
        g.visible(len, x, y),
{
    let s = g.stride as int;
    let b = g.bytes_per_pixel as int;
    let h = g.height as int;
    assert((y * s + x) * b + b <= h * (s * b)) by (nonlinear_arith)
        requires
            0 <= x < s,
            0 <= y < h,
            1 <= b,
    ;
}

/// A moving cursor leaves no trail: what is on the screen beneath a cursor that
/// is drawn is the same before and after, wherever it goes.
pub proof fn law_no_trails(a: Display, dx: int, dy: int, b: Display)
    requires
        a.wf(),
        a.writer is Some,
        apart(a.writer->0.info),
        whole(a.writer->0.info, a.writer->0.framebuffer@.len() as int),
        cursor_moves(a, dx, dy, b),
        a.drawn || (b.cur_x == a.cur_x && b.cur_y == a.cur_y),
    ensures
        b.writer is Some,
        beneath(b) == beneath(a),
{
    let w = a.writer->0;
    let g = w.info;
    let fb = w.framebuffer@;
    let n = target(a, g, dx, dy);
    let ox = a.cur_x as int;
    let oy = a.cur_y as int;
    let nx = n.0 as int;
    let ny = n.1 as int;
    if !(nx == ox && ny == oy) {
        let cleaned = restored(fb, g, a.save@, ox, oy, Some((nx, ny)));
        let end = arrow(cleaned, g, nx, ny);
        lemma_arrow(cleaned, g, nx, ny, 384);
        assert forall|k: int| 0 <= k < fb.len() implies restored_byte(end, g, b.save@, nx, ny, None, k)
            == restored_byte(fb, g, a.save@, ox, oy, None, k) by {
            lemma_place(g, k);
            let x = g.x_of(k);
            let y = g.y_of(k);
            let t = g.b_of(k);
            if x < g.width && y < g.height {
                lemma_whole(g, fb.len() as int, x, y);
                if under(nx, ny, x, y) && t < 4 {
                    let j = slot(x - nx, y - ny, t);
                    assert(j % 4 == t && j / 4 % 16 == x - nx && j / 4 / 16 == y - ny && 0 <= j < 1536);
                    assert(b.save@[j] == captured_byte(cleaned, g, a.save@, nx, ny, ox, oy, j));
                }
            }
        }
        assert(lifted(end, g, b.save@, nx, ny) =~= lifted(fb, g, a.save@, ox, oy));
    }
}

/// A printing console keeps the pixels under the cursor in step: with the
/// cursor in the console taken away, the screen is as if the bytes had been
/// printed with no cursor there at all. It does not matter whether the cursor
/// was drawn before.
pub proof fn law_console_under_cursor(a: Display, data: Seq<u8>, b: Display)
    requires
        a.wf(),
        a.writer is Some,
        apart(a.writer->0.info),
        can_print(a),
        a.cur_y >= CONSOLE_TOP,
        console_shows(a, data, b),
    ensures
        b.writer is Some,
        b.drawn,
        beneath(b) == bytes_put(
            a.console->0.pen(beneath(a), a.dirty),
            a.writer->0.info,
            a.console->0.scale as int,
            data,
            data.len() as int,
        ).canvas.fb,
{
    let w = a.writer->0;
    let t = a.console->0;
    let g = w.info;
    let x0 = a.cur_x as int;
    let y0 = a.cur_y as int;
    let bare = beneath(a);
    let s = t.scale as int;
    let fb = bytes_put(t.pen(bare, a.dirty), g, s, data, data.len() as int).canvas.fb;
    lemma_bytes_covered(t.pen(bare, a.dirty), g, s, data, data.len() as int);
    lemma_arrow(fb, g, x0, y0, 384);
    let end = arrow(fb, g, x0, y0);
    assert forall|k: int| 0 <= k < fb.len() implies restored_byte(end, g, b.save@, x0, y0, None, k) == fb[k] by {
        lemma_place(g, k);
        let x = g.x_of(k);
        let y = g.y_of(k);
        let t = g.b_of(k);
        if x < g.width && y < g.height {
            lemma_whole(g, fb.len() as int, x, y);
            if under(x0, y0, x, y) && t < 4 {
                let j = slot(x - x0, y - y0, t);
                assert(j % 4 == t && j / 4 % 16 == x - x0 && j / 4 / 16 == y - y0 && 0 <= j < 1536);
                assert(b.save@[j] == saved_byte(fb, g, a.save@, x0, y0, j));
            }
        }
    }
    assert(lifted(end, g, b.save@, x0, y0) =~= fb);
}

/// The first print on an adopted screen shows the cursor and no more: outside
/// the sprite the screen is as if the bytes had been printed on it with no
/// cursor, and what they are not printed on is as it was.
pub proof fn law_first_print_spares_the_screen(
    a: Display,
    fb: Seq<u8>,
    g: FrameBufferInfo,
    pen: (u64, u64),
    b: Display,
    data: Seq<u8>,
    c: Display,
)
    requires
        b.wf(),
        apart(g),
        can_print(b),
        installs(a, fb, g, pen, true, b),
        console_shows(b, data, c),
    ensures
        c.writer is Some,
        c.writer->0.framebuffer@.len() == b.writer->0.framebuffer@.len(),
        forall|k: int|
            0 <= k < b.writer->0.framebuffer@.len() && !under(
                b.cur_x as int,
                b.cur_y as int,
                g.x_of(k),
                g.y_of(k),
            ) ==> {
                let old = b.writer->0.framebuffer@;
                let put = bytes_put(
                    b.console->0.pen(old, b.dirty),
                    g,
                    b.console->0.scale as int,
                    data,
                    data.len() as int,
                ).canvas.fb;
                &&& #[trigger] c.writer->0.framebuffer@[k] == put[k]
                &&& put[k] == old[k] ==> c.writer->0.framebuffer@[k] == old[k]
            },
{
    let w = b.writer->0;
    let t = b.console->0;
    let s = t.scale as int;
    lemma_bytes_covered(t.pen(w.framebuffer@, b.dirty), g, s, data, data.len() as int);
    let put = bytes_put(t.pen(w.framebuffer@, b.dirty), g, s, data, data.len() as int).canvas.fb;
    lemma_arrow(put, g, b.cur_x as int, b.cur_y as int, 384);
}

/// All of the box `a` is in the box `b`.
pub open spec fn within(a: Option<Rect>, b: Option<Rect>) -> bool {
    forall|x: int, y: int| #[trigger] inside(a, x, y) ==> inside(b, x, y)
}

/// What differs on the screen from `c` to `d` is in the damage of `d`, and
/// none of the damage of `c` is lost.
pub open spec fn tracked_to(c: Canvas, d: Canvas, g: FrameBufferInfo) -> bool {
    &&& d.fb.len() == c.fb.len()
    &&& within(c.dirty, d.dirty)
    &&& forall|k: int|
        0 <= k < c.fb.len() && g.x_of(k) < g.width && g.y_of(k) < g.height && #[trigger] d.fb[k] != c.fb[k] ==> inside(
            d.dirty,
            g.x_of(k),
            g.y_of(k),
        )
}

proof fn lemma_tracked_on(c: Canvas, d: Canvas, e: Canvas, g: FrameBufferInfo)
    requires
        tracked_to(c, d, g),
        tracked_to(d, e, g),
    ensures
        tracked_to(c, e, g),
{
    assert forall|k: int|
        0 <= k < c.fb.len() && g.x_of(k) < g.width && g.y_of(k) < g.height && #[trigger] e.fb[k]
            != c.fb[k] implies inside(e.dirty, g.x_of(k), g.y_of(k)) by {
        if d.fb[k] != c.fb[k] {
            assert(inside(d.dirty, g.x_of(k), g.y_of(k)));
        }
    }
}

proof fn lemma_plot_covered(c: Canvas, g: FrameBufferInfo, x: int, y: int, rgb: u32)
    requires
        g.wf(),
        apart(g),
        0 <= x,
        0 <= y,
    ensures
        tracked_to(c, plotted(c, g, x, y, rgb, true), g),
{
    lemma_plotted(c, g, x, y, rgb, true);
}

proof fn lemma_row_covered(c: Canvas, g: FrameBufferInfo, x0: int, x1: int, y: int, rgb: u32)
    requires
        g.wf(),
        apart(g),
        0 <= x0,
        0 <= y,
    ensures
        tracked_to(c, row_filled(c, g, x0, x1, y, rgb, true), g),
    decreases x1 - x0,
{
    if x1 > x0 {
        lemma_row_covered(c, g, x0, x1 - 1, y, rgb);
        let d = row_filled(c, g, x0, x1 - 1, y, rgb, true);
        lemma_plot_covered(d, g, x1 - 1, y, rgb);
        lemma_tracked_on(c, d, row_filled(c, g, x0, x1, y, rgb, true), g);
    }
}

proof fn lemma_rect_covered(c: Canvas, g: FrameBufferInfo, x0: int, x1: int, y0: int, y1: int, rgb: u32)
    requires
        g.wf(),
        apart(g),
        0 <= x0,
        0 <= y0,
    ensures
        tracked_to(c, rect_filled(c, g, x0, x1, y0, y1, rgb, true), g),
    decreases y1 - y0,
{
    if y1 > y0 {
        lemma_rect_covered(c, g, x0, x1, y0, y1 - 1, rgb);
        let d = rect_filled(c, g, x0, x1, y0, y1 - 1, rgb, true);
        lemma_row_covered(d, g, x0, x1, y1 - 1, rgb);
        lemma_tracked_on(c, d, rect_filled(c, g, x0, x1, y0, y1, rgb, true), g);
    }
}

proof fn lemma_bits_covered(c: Canvas, g: FrameBufferInfo, bits: u8, x: int, y: int, s: int, n: int)
    requires
        g.wf(),
        apart(g),
        0 <= x,
        0 <= y,
        0 <= s,
    ensures
        tracked_to(c, bits_drawn(c, g, bits, x, y, s, true, n), g),
    decreases n,
{
    if n > 0 {
        lemma_bits_covered(c, g, bits, x, y, s, n - 1);
        let d = bits_drawn(c, g, bits, x, y, s, true, n - 1);
        assert(0 <= (n - 1) * s) by (nonlinear_arith)
            requires
                n >= 1,
                s >= 0,
        ;
        lemma_rect_covered(d, g, x + (n - 1) * s, x + (n - 1) * s + s, y, y + s, WHITE);
        lemma_tracked_on(c, d, bits_drawn(c, g, bits, x, y, s, true, n), g);
    }
}

proof fn lemma_glyph_covered(c: Canvas, g: FrameBufferInfo, rows: Seq<u8>, x: int, y: int, s: int, n: int)
    requires
        g.wf(),
        apart(g),
        0 <= x,
        0 <= y,
        0 <= s,
    ensures
        tracked_to(c, glyph_drawn(c, g, rows, x, y, s, true, n), g),
    decreases n,
{
    if n > 0 {
        lemma_glyph_covered(c, g, rows, x, y, s, n - 1);
        let d = glyph_drawn(c, g, rows, x, y, s, true, n - 1);
        assert(0 <= (n - 1) * s) by (nonlinear_arith)
            requires
                n >= 1,
                s >= 0,
        ;
        lemma_bits_covered(d, g, rows[n - 1], x, y + (n - 1) * s, s, 8);
        lemma_tracked_on(c, d, glyph_drawn(c, g, rows, x, y, s, true, n), g);
    }
}

proof fn lemma_cleared_covered(c: Canvas, g: FrameBufferInfo, y0: int, y1: int)
    requires
        g.wf(),
        0 <= y0,
    ensures
        tracked_to(c, rows_cleared(c, g, y0, y1), g),
    decreases y1 - y0,
{
    if y1 > y0 {
        lemma_cleared_covered(c, g, y0, y1 - 1);
        let d = rows_cleared(c, g, y0, y1 - 1);
        let e = row_cleared(d, g, y1 - 1);
        assert forall|k: int|
            0 <= k < d.fb.len() && g.x_of(k) < g.width && g.y_of(k) < g.height && #[trigger] e.fb[k]
                != d.fb[k] implies inside(e.dirty, g.x_of(k), g.y_of(k)) by {
            lemma_place(g, k);
        }
        lemma_tracked_on(c, d, e, g);
    }
}

proof fn lemma_scroll_covered(c: Canvas, g: FrameBufferInfo, px: int)
    requires
        g.wf(),
        CONSOLE_TOP <= g.height,
        1 <= px,
    ensures
        tracked_to(c, scrolled(c, g, px), g),
{
    let d = widened(c.dirty, band(g, CONSOLE_TOP as int, g.height - 1));
    if px >= g.height - CONSOLE_TOP {
        let m = Canvas { fb: c.fb, dirty: d };
        assert(tracked_to(c, m, g));
        lemma_cleared_covered(m, g, CONSOLE_TOP as int, g.height as int);
        lemma_tracked_on(c, m, scrolled(c, g, px), g);
    } else {
        let m = Canvas { fb: moved(c.fb, g, px), dirty: d };
        assert forall|k: int|
            0 <= k < c.fb.len() && g.x_of(k) < g.width && g.y_of(k) < g.height && #[trigger] m.fb[k]
                != c.fb[k] implies inside(m.dirty, g.x_of(k), g.y_of(k)) by {
            lemma_place(g, k);
            let s = g.stride as int;
            let b = g.bytes_per_pixel as int;
            let x = g.x_of(k);
            let y = g.y_of(k);
            assert(CONSOLE_TOP * (s * b) <= k);
            assert(y >= 56) by (nonlinear_arith)
                requires
                    56 * (s * b) <= (y * s + x) * b + g.b_of(k),
                    0 <= g.b_of(k) < b,
                    0 <= x < s,
                    1 <= b,
            ;
        }
        lemma_cleared_covered(m, g, g.height - px, g.height as int);
        lemma_tracked_on(c, m, scrolled(c, g, px), g);
    }
}

proof fn lemma_byte_covered(p: Pen, g: FrameBufferInfo, s: int, b: u8)
    requires
        g.wf(),
        apart(g),
        CONSOLE_TOP <= g.height,
        1 <= s <= 2,
        0 <= p.x,
        0 <= p.y,
    ensures
        tracked_to(p.canvas, byte_put(p, g, s, b).canvas, g),
        0 <= byte_put(p, g, s, b).x,
        0 <= byte_put(p, g, s, b).y,
{
    lemma_scroll_covered(p.canvas, g, 10 * s);
    if b == 0x08 || b == 0x7F {
        if p.x >= 9 * s {
            lemma_rect_covered(
                p.canvas,
                g,
                p.x - 9 * s,
                if p.x < g.width { p.x } else { g.width as int },
                p.y,
                if p.y + 10 * s < g.height { p.y + 10 * s } else { g.height as int },
                SLATE,
            );
        }
    } else if 0x20 <= b < 0x7F {
        let q = if p.x + 8 * s > g.width { line_fed(p, g, s) } else { p };
        lemma_glyph_covered(q.canvas, g, glyph_rows(b), q.x, q.y, s, 8);
        lemma_tracked_on(p.canvas, q.canvas, put_char(p, g, s, b).canvas, g);
    }
}

proof fn lemma_bytes_covered(p: Pen, g: FrameBufferInfo, s: int, data: Seq<u8>, n: int)
    requires
        g.wf(),
        apart(g),
        CONSOLE_TOP <= g.height,
        1 <= s <= 2,
        0 <= p.x,
        0 <= p.y,
        n <= data.len(),
    ensures
        tracked_to(p.canvas, bytes_put(p, g, s, data, n).canvas, g),
        0 <= bytes_put(p, g, s, data, n).x,
        0 <= bytes_put(p, g, s, data, n).y,
    decreases n,
{
    if n > 0 {
        lemma_bytes_covered(p, g, s, data, n - 1);
        let q = bytes_put(p, g, s, data, n - 1);
        lemma_byte_covered(q, g, s, data[n - 1]);
        lemma_tracked_on(p.canvas, q.canvas, bytes_put(p, g, s, data, n).canvas, g);
    }
}

/// No damage goes unpresented: whatever printing changes on the screen lies
/// in the box that the next present takes.
pub proof fn law_damage_covers_printing(p: Pen, g: FrameBufferInfo, s: int, data: Seq<u8>, k: int)
    requires
        g.wf(),
        apart(g),
        CONSOLE_TOP <= g.height,
        1 <= s <= 2,
        0 <= p.x,
        0 <= p.y,
        0 <= k < p.canvas.fb.len(),
        g.x_of(k) < g.width,
        g.y_of(k) < g.height,
        bytes_put(p, g, s, data, data.len() as int).canvas.fb[k] != p.canvas.fb[k],
    ensures
        inside(bytes_put(p, g, s, data, data.len() as int).canvas.dirty, g.x_of(k), g.y_of(k)),
{
    lemma_bytes_covered(p, g, s, data, data.len() as int);
}

/// The cursor never leaves the screen: a motion keeps the whole sprite on it.
pub proof fn law_cursor_stays_on_screen(d: Display, g: FrameBufferInfo, dx: int, dy: int)
    requires
        g.width >= CURSOR_W,
        g.height >= CURSOR_H,
    ensures
        target(d, g, dx, dy).0 + CURSOR_W <= g.width,
        target(d, g, dx, dy).1 + CURSOR_H <= g.height,
{
}

} // verus!
