//! What the screen shows: which bytes of the frame buffer a pixel has, what drawing puts there,
//! and how the console moves.
use vstd::prelude::*;

use crate::framebuffer::{
    arrow, arrow_drawn, band, bits_drawn, blank, byte_put, clamped, clock_x, clocked, cursor_line,
    gain, glyph_drawn, glyph_rows, headed, last_fit, lemma_cell, lit, middle, motion, moved,
    plotted, rect_filled, row_bytes, row_cleared, row_filled, rows_cleared, scrolled, text_drawn,
    text_scale, widened, Canvas, FrameBufferInfo, Pen, PixelFormat,
};

verus! {

/// Where byte `b` of a pixel lies: rows follow each other at the stride, pixels at their size.
pub open spec fn place(g: FrameBufferInfo, x: int, y: int, b: int) -> int {
    (y * g.stride + x) * g.bytes_per_pixel + b
}

/// Whether byte `b` is one of the colour bytes of a pixel on the screen.
pub open spec fn on_screen(g: FrameBufferInfo, len: int, x: int, y: int, b: int) -> bool {
    &&& 0 <= x < g.width
    &&& 0 <= y < g.height
    &&& 0 <= b < 3
    &&& b < g.bytes_per_pixel
    &&& place(g, x, y, 0) + 3 <= len
}

/// What colour `rgb` puts into byte `b` of a pixel: red, green and blue from the first byte on or
/// from the last one back, or their mean in the only byte; an unknown format is left alone.
pub open spec fn ink(f: PixelFormat, rgb: int, b: int, before: u8) -> int {
    let r = rgb / 65536 % 256;
    let g = rgb / 256 % 256;
    let l = rgb % 256;
    match f {
        PixelFormat::Rgb => if b == 0 {
            r
        } else if b == 1 {
            g
        } else {
            l
        },
        PixelFormat::Bgr => if b == 0 {
            l
        } else if b == 1 {
            g
        } else {
            r
        },
        PixelFormat::U8 => if b == 0 {
            (r + g + l) / 3
        } else {
            before as int
        },
        PixelFormat::Other => before as int,
    }
}

/// Whether pixels are wide enough for what their format puts into them.
pub open spec fn roomy(g: FrameBufferInfo) -> bool {
    g.pixel_format == PixelFormat::Rgb || g.pixel_format == PixelFormat::Bgr ==> g.bytes_per_pixel >= 3
}

proof fn lemma_places(g: FrameBufferInfo, x: int, y: int, u: int, v: int)
    requires
        g.wf(),
        0 <= x < g.stride,
        0 <= u < g.stride,
        0 <= y,
        0 <= v,
    ensures
        0 <= place(g, x, y, 0),
        g.at(x, y) == place(g, x, y, 0),
        (x, y) != (u, v) ==> place(g, x, y, 0) + g.bytes_per_pixel <= place(g, u, v, 0) || place(g, u, v, 0)
            + g.bytes_per_pixel <= place(g, x, y, 0),
{
    let s = g.stride as int;
    let n = g.bytes_per_pixel as int;
    let p = y * s + x;
    let q = v * s + u;
    assert(0 <= p && 0 <= q) by (nonlinear_arith)
        requires
            0 <= y,
            0 <= v,
            0 <= x,
            0 <= u,
            0 < s,
            p == y * s + x,
            q == v * s + u,
    ;
    assert(0 <= p * n) by (nonlinear_arith)
        requires
            0 <= p,
            0 < n,
    ;
    if (x, y) != (u, v) {
        assert(p != q) by {
            if y < v {
                assert(v * s >= y * s + s) by (nonlinear_arith)
                    requires
                        y + 1 <= v,
                        0 < s,
                ;
            } else if v < y {
                assert(y * s >= v * s + s) by (nonlinear_arith)
                    requires
                        v + 1 <= y,
                        0 < s,
                ;
            }
        }
        if p < q {
            assert(q * n >= p * n + n) by (nonlinear_arith)
                requires
                    p + 1 <= q,
                    0 < n,
            ;
        } else {
            assert(p * n >= q * n + n) by (nonlinear_arith)
                requires
                    q + 1 <= p,
                    0 < n,
            ;
        }
    }
}

/// A pixel drawn shows its colour, and no other pixel changes.
#[verifier::spinoff_prover]
#[verifier::rlimit(60)]
pub proof fn law_pixel(c: Canvas, g: FrameBufferInfo, u: int, v: int, rgb: u32, mark: bool, x: int, y: int, b: int)
    requires
        g.wf(),
        roomy(g),
        0 <= u,
        0 <= v,
        on_screen(g, c.fb.len() as int, x, y, b),
    ensures
        plotted(c, g, u, v, rgb, mark).fb.len() == c.fb.len(),
        plotted(c, g, u, v, rgb, mark).fb[place(g, x, y, b)] == if x == u && y == v {
            ink(g.pixel_format, rgb as int, b, c.fb[place(g, x, y, b)])
        } else {
            c.fb[place(g, x, y, b)] as int
        },
{
    if u < g.width && v < g.height {
        lemma_places(g, u, v, x, y);
        lemma_places(g, x, y, u, v);
        assert(place(g, x, y, b) == place(g, x, y, 0) + b);
    }
}

proof fn lemma_row(c: Canvas, g: FrameBufferInfo, x0: int, x1: int, v: int, rgb: u32, mark: bool, x: int, y: int, b: int)
    requires
        g.wf(),
        roomy(g),
        0 <= x0,
        0 <= v,
        on_screen(g, c.fb.len() as int, x, y, b),
    ensures
        row_filled(c, g, x0, x1, v, rgb, mark).fb.len() == c.fb.len(),
        row_filled(c, g, x0, x1, v, rgb, mark).fb[place(g, x, y, b)] == if x0 <= x < x1 && y == v {
            ink(g.pixel_format, rgb as int, b, c.fb[place(g, x, y, b)])
        } else {
            c.fb[place(g, x, y, b)] as int
        },
    decreases x1 - x0,
{
    if x1 > x0 {
        lemma_row(c, g, x0, x1 - 1, v, rgb, mark, x, y, b);
        law_pixel(row_filled(c, g, x0, x1 - 1, v, rgb, mark), g, x1 - 1, v, rgb, mark, x, y, b);
    }
}

/// A filled rectangle shows its colour on each of its pixels and on no other.
pub proof fn law_rectangle(
    c: Canvas,
    g: FrameBufferInfo,
    x0: int,
    x1: int,
    y0: int,
    y1: int,
    rgb: u32,
    mark: bool,
    x: int,
    y: int,
    b: int,
)
    requires
        g.wf(),
        roomy(g),
        0 <= x0,
        0 <= y0,
        on_screen(g, c.fb.len() as int, x, y, b),
    ensures
        rect_filled(c, g, x0, x1, y0, y1, rgb, mark).fb.len() == c.fb.len(),
        rect_filled(c, g, x0, x1, y0, y1, rgb, mark).fb[place(g, x, y, b)] == if x0 <= x < x1 && y0 <= y < y1 {
            ink(g.pixel_format, rgb as int, b, c.fb[place(g, x, y, b)])
        } else {
            c.fb[place(g, x, y, b)] as int
        },
    decreases y1 - y0,
{
    if y1 > y0 {
        law_rectangle(c, g, x0, x1, y0, y1 - 1, rgb, mark, x, y, b);
        lemma_row(rect_filled(c, g, x0, x1, y0, y1 - 1, rgb, mark), g, x0, x1, y1 - 1, rgb, mark, x, y, b);
    }
}

/// Bit `n` of a byte, counted from the lowest.
pub open spec fn bit_at(v: u8, n: int) -> int {
    if n == 0 {
        v as int % 2
    } else if n == 1 {
        v as int / 2 % 2
    } else if n == 2 {
        v as int / 4 % 2
    } else if n == 3 {
        v as int / 8 % 2
    } else if n == 4 {
        v as int / 16 % 2
    } else if n == 5 {
        v as int / 32 % 2
    } else if n == 6 {
        v as int / 64 % 2
    } else {
        v as int / 128 % 2
    }
}

proof fn lemma_lit(v: u8, n: int)
    requires
        0 <= n < 8,
    ensures
        lit(v, n) <==> bit_at(v, n) == 1,
{
    assert((v >> 0) & 1 == v % 2 && (v >> 1) & 1 == v / 2 % 2 && (v >> 2) & 1 == v / 4 % 2 && (v >> 3) & 1 == v / 8
        % 2 && (v >> 4) & 1 == v / 16 % 2 && (v >> 5) & 1 == v / 32 % 2 && (v >> 6) & 1 == v / 64 % 2 && (v
        >> 7) & 1 == v / 128 % 2) by (bit_vector);
}

/// Whether a glyph's dot lies on the pixel: dot (0, 0) is the square of `s` by `s` pixels at the
/// corner, the lowest bit of a row its leftmost dot.
pub open spec fn dotted(rows: Seq<u8>, u: int, v: int, s: int, x: int, y: int) -> bool {
    &&& u <= x < u + 8 * s
    &&& v <= y < v + 8 * s
    &&& bit_at(rows[(y - v) / s], (x - u) / s) == 1
}

#[verifier::spinoff_prover]
#[verifier::rlimit(60)]
proof fn lemma_bits(c: Canvas, g: FrameBufferInfo, bits: u8, u: int, v: int, s: int, mark: bool, n: int, x: int, y: int, b: int)
    requires
        g.wf(),
        roomy(g),
        0 <= u,
        0 <= v,
        s == 1 || s == 2,
        0 <= n <= 8,
        on_screen(g, c.fb.len() as int, x, y, b),
    ensures
        bits_drawn(c, g, bits, u, v, s, mark, n).fb.len() == c.fb.len(),
        bits_drawn(c, g, bits, u, v, s, mark, n).fb[place(g, x, y, b)] == if u <= x < u + n * s && v <= y < v + s
            && bit_at(bits, (x - u) / s) == 1 {
            ink(g.pixel_format, 0xFFFFFF, b, c.fb[place(g, x, y, b)])
        } else {
            c.fb[place(g, x, y, b)] as int
        },
    decreases n,
{
    if n > 0 {
        lemma_bits(c, g, bits, u, v, s, mark, n - 1, x, y, b);
        lemma_lit(bits, n - 1);
        let d = bits_drawn(c, g, bits, u, v, s, mark, n - 1);
        law_rectangle(d, g, u + (n - 1) * s, u + (n - 1) * s + s, v, v + s, 0xFFFFFF, mark, x, y, b);
        if s == 1 {
            assert((n - 1) * s == n - 1 && n * s == n);
        } else {
            assert((n - 1) * s == 2 * n - 2 && n * s == 2 * n);
        }
    }
}

/// A character is drawn in white, dot by dot, and leaves what lies between its dots.
#[verifier::spinoff_prover]
#[verifier::rlimit(60)]
pub proof fn law_glyph(
    c: Canvas,
    g: FrameBufferInfo,
    rows: Seq<u8>,
    u: int,
    v: int,
    s: int,
    mark: bool,
    n: int,
    x: int,
    y: int,
    b: int,
)
    requires
        g.wf(),
        roomy(g),
        0 <= u,
        0 <= v,
        s == 1 || s == 2,
        0 <= n <= 8,
        on_screen(g, c.fb.len() as int, x, y, b),
    ensures
        glyph_drawn(c, g, rows, u, v, s, mark, n).fb.len() == c.fb.len(),
        glyph_drawn(c, g, rows, u, v, s, mark, n).fb[place(g, x, y, b)] == if y < v + n * s && dotted(
            rows,
            u,
            v,
            s,
            x,
            y,
        ) {
            ink(g.pixel_format, 0xFFFFFF, b, c.fb[place(g, x, y, b)])
        } else {
            c.fb[place(g, x, y, b)] as int
        },
    decreases n,
{
    if n > 0 {
        law_glyph(c, g, rows, u, v, s, mark, n - 1, x, y, b);
        let d = glyph_drawn(c, g, rows, u, v, s, mark, n - 1);
        if s == 1 {
            assert((n - 1) * s == n - 1 && n * s == n && 8 * s == 8);
        } else {
            assert((n - 1) * s == 2 * n - 2 && n * s == 2 * n && 8 * s == 16);
        }
        lemma_bits(d, g, rows[n - 1], u, v + (n - 1) * s, s, mark, 8, x, y, b);
        if v + (n - 1) * s <= y < v + n * s {
            assert((y - v) / s == n - 1);
        }
    }
}

/// A cleared row is slate from edge to edge.
pub proof fn law_cleared_row(c: Canvas, g: FrameBufferInfo, v: int, x: int, y: int, b: int)
    requires
        g.wf(),
        roomy(g),
        g.pixel_format != PixelFormat::Other,
        g.pixel_format == PixelFormat::U8 ==> b == 0,
        on_screen(g, c.fb.len() as int, x, y, b),
    ensures
        row_cleared(c, g, v).fb.len() == c.fb.len(),
        row_cleared(c, g, v).fb[place(g, x, y, b)] == if y == v {
            ink(g.pixel_format, 0x0E1420, b, 0)
        } else {
            c.fb[place(g, x, y, b)] as int
        },
{
    let k = place(g, x, y, b);
    lemma_places(g, x, y, x, y);
    lemma_cell(g, x, y);
    assert(g.b_of(k) == k - g.at(x, y));
    assert(g.x_of(k) == x && g.y_of(k) == y);
}

/// The rows that are cleared are slate, the others stay.
pub proof fn law_cleared_rows(c: Canvas, g: FrameBufferInfo, y0: int, y1: int, x: int, y: int, b: int)
    requires
        g.wf(),
        roomy(g),
        g.pixel_format != PixelFormat::Other,
        g.pixel_format == PixelFormat::U8 ==> b == 0,
        on_screen(g, c.fb.len() as int, x, y, b),
    ensures
        rows_cleared(c, g, y0, y1).fb.len() == c.fb.len(),
        rows_cleared(c, g, y0, y1).fb[place(g, x, y, b)] == if y0 <= y < y1 {
            ink(g.pixel_format, 0x0E1420, b, 0)
        } else {
            c.fb[place(g, x, y, b)] as int
        },
    decreases y1 - y0,
{
    if y1 > y0 {
        law_cleared_rows(c, g, y0, y1 - 1, x, y, b);
        law_cleared_row(rows_cleared(c, g, y0, y1 - 1), g, y1 - 1, x, y, b);
    }
}

/// The console scrolls up: below the header, which ends at row 56, each row shows what stood
/// `n` rows lower, and the rows that come free at the bottom are slate.
#[verifier::spinoff_prover]
#[verifier::rlimit(60)]
pub proof fn law_scroll(c: Canvas, g: FrameBufferInfo, n: int, x: int, y: int, b: int)
    requires
        g.wf(),
        roomy(g),
        g.pixel_format != PixelFormat::Other,
        g.pixel_format == PixelFormat::U8 ==> b == 0,
        0 < n < g.height - 56,
        place(g, 0, g.height as int, 0) <= c.fb.len(),
        on_screen(g, c.fb.len() as int, x, y, b),
    ensures
        scrolled(c, g, n).fb.len() == c.fb.len(),
        scrolled(c, g, n).fb[place(g, x, y, b)] == if y < 56 {
            c.fb[place(g, x, y, b)] as int
        } else if y < g.height - n {
            c.fb[place(g, x, y + n, b)] as int
        } else {
            ink(g.pixel_format, 0x0E1420, b, 0)
        },
{
    let k = place(g, x, y, b);
    let r = row_bytes(g);
    let s = g.stride as int;
    let w = g.bytes_per_pixel as int;
    lemma_places(g, x, y, x, y);
    assert(k == y * r + (x * w + b)) by (nonlinear_arith)
        requires
            k == (y * s + x) * w + b,
            r == s * w,
    ;
    assert(0 <= x * w + b < r) by (nonlinear_arith)
        requires
            0 <= x < s,
            0 <= b < w,
            r == s * w,
    ;
    assert(place(g, x, y + n, b) == k + n * r) by (nonlinear_arith)
        requires
            place(g, x, y + n, b) == ((y + n) * s + x) * w + b,
            k == (y * s + x) * w + b,
            r == s * w,
    ;
    lemma_row_order(y, 56, r, x * w + b);
    lemma_row_order(y, g.height - n, r, x * w + b);
    let d = widened(
        c.dirty,
        band(g, 56, if g.height == 0 { 0 } else { g.height - 1 }),
    );
    let e = Canvas { fb: moved(c.fb, g, n), dirty: d };
    assert(scrolled(c, g, n) == rows_cleared(e, g, g.height - n, g.height as int));
    law_cleared_rows(e, g, g.height - n, g.height as int, x, y, b);
}

proof fn lemma_row_order(y: int, v: int, r: int, o: int)
    requires
        0 <= o < r,
    ensures
        y < v <==> y * r + o < v * r,
{
    if y < v {
        assert(v * r >= y * r + r) by (nonlinear_arith)
            requires
                y + 1 <= v,
                0 < r,
        ;
    } else {
        assert(y * r >= v * r) by (nonlinear_arith)
            requires
                v <= y,
                0 < r,
        ;
    }
}

/// A line feed goes to the start of the next line, ten dots lower, and scrolls where that
/// would leave the screen; a carriage return goes to the start of the line.
pub proof fn law_line_feed(p: Pen, g: FrameBufferInfo, s: int)
    ensures
        byte_put(p, g, s, 13) == (Pen { x: 0, ..p }),
        byte_put(p, g, s, 10).x == 0,
        p.y + 10 * s < g.height ==> byte_put(p, g, s, 10) == (Pen { x: 0, y: p.y + 10 * s, ..p }),
        p.y + 10 * s >= g.height ==> byte_put(p, g, s, 10).y + 10 * s == g.height && byte_put(p, g, s, 10).canvas
            == scrolled(p.canvas, g, 10 * s),
{
}

/// A character is drawn where the pen stands, and the pen moves on by nine dots. Where the
/// character would cross the right edge, it starts the next line.
pub proof fn law_character(p: Pen, g: FrameBufferInfo, s: int, c: u8)
    requires
        32 <= c <= 126,
    ensures
        p.x + 8 * s <= g.width ==> byte_put(p, g, s, c) == (Pen {
            canvas: glyph_drawn(p.canvas, g, glyph_rows(c), p.x, p.y, s, true, 8),
            x: p.x + 9 * s,
            y: p.y,
        }),
        p.x + 8 * s > g.width && 8 * s <= g.width ==> byte_put(p, g, s, c) == byte_put(
            byte_put(p, g, s, 10),
            g,
            s,
            c,
        ),
{
}

/// Nothing else is printed: the other control bytes and what is not ASCII.
pub proof fn law_unprintable(p: Pen, g: FrameBufferInfo, s: int, c: u8)
    requires
        c < 8 || c == 9 || c == 11 || c == 12 || 14 <= c < 32 || c > 127,
    ensures
        byte_put(p, g, s, c) == p,
{
}

/// A backspace takes the pen back by one character and clears that character's cell, nine
/// dots by ten; at the start of the line it does nothing.
pub proof fn law_backspace(p: Pen, g: FrameBufferInfo, s: int, c: u8, x: int, y: int, b: int)
    requires
        g.wf(),
        roomy(g),
        c == 8 || c == 127,
        s == 1 || s == 2,
        0 <= p.y,
        on_screen(g, p.canvas.fb.len() as int, x, y, b),
    ensures
        p.x < 9 * s ==> byte_put(p, g, s, c) == p,
        p.x >= 9 * s ==> byte_put(p, g, s, c).x == p.x - 9 * s && byte_put(p, g, s, c).y == p.y,
        p.x >= 9 * s ==> byte_put(p, g, s, c).canvas.fb[place(g, x, y, b)] == if p.x - 9 * s <= x < p.x && p.y
            <= y < p.y + 10 * s {
            ink(g.pixel_format, 0x0E1420, b, p.canvas.fb[place(g, x, y, b)])
        } else {
            p.canvas.fb[place(g, x, y, b)] as int
        },
{
    if p.x >= 9 * s {
        law_rectangle(
            p.canvas,
            g,
            p.x - 9 * s,
            if p.x < g.width { p.x } else { g.width as int },
            p.y,
            if p.y + 10 * s < g.height { p.y + 10 * s } else { g.height as int },
            0x0E1420,
            true,
            x,
            y,
            b,
        );
    }
}

/// A blank screen is slate.
pub proof fn law_blank(fb: Seq<u8>, g: FrameBufferInfo, x: int, y: int, b: int)
    requires
        g.wf(),
        roomy(g),
        on_screen(g, fb.len() as int, x, y, b),
    ensures
        blank(fb, g)[place(g, x, y, b)] == ink(g.pixel_format, 0x0E1420, b, fb[place(g, x, y, b)]),
{
    law_rectangle(Canvas { fb, dirty: None }, g, 0, g.width as int, 0, g.height as int, 0x0E1420, false, x, y, b);
}

proof fn lemma_text(p: Pen, g: FrameBufferInfo, s: int, text: Seq<char>, n: int, x: int, y: int, b: int)
    requires
        g.wf(),
        roomy(g),
        s == 1 || s == 2,
        0 <= p.x,
        0 <= p.y,
        0 <= n <= text.len(),
        on_screen(g, p.canvas.fb.len() as int, x, y, b),
    ensures
        ({
            let q = text_drawn(p, g, s, text, false, n);
            &&& q.canvas.fb.len() == p.canvas.fb.len()
            &&& q.y == p.y
            &&& p.x <= q.x <= p.x + 9 * s * n
            &&& (forall|i: int| 0 <= i < n ==> (#[trigger] text[i] as u32) < 128) ==> q.x == p.x + 9 * s * n
            &&& !(p.y <= y < p.y + 8 * s) || x < p.x ==> q.canvas.fb[place(g, x, y, b)] == p.canvas.fb[place(
                g,
                x,
                y,
                b,
            )]
        }),
    decreases n,
{
    if n > 0 {
        lemma_text(p, g, s, text, n - 1, x, y, b);
        let q = text_drawn(p, g, s, text, false, n - 1);
        let c = text[n - 1];
        if s == 1 {
            assert(9 * s * n == 9 * n && 9 * s * (n - 1) == 9 * n - 9);
        } else {
            assert(9 * s * n == 18 * n && 9 * s * (n - 1) == 18 * n - 18);
        }
        if (c as u32) < 128 {
            law_glyph(q.canvas, g, glyph_rows(c as u8), q.x, q.y, s, false, 8, x, y, b);
        }
    }
}

/// The header is a blue bar of 48 rows, with its title from pixel 12 and row 14 on; what lies
/// under the bar stays.
pub proof fn law_header(fb: Seq<u8>, g: FrameBufferInfo, s: int, title: Seq<char>, x: int, y: int, b: int)
    requires
        g.wf(),
        roomy(g),
        s == 1 || s == 2,
        on_screen(g, fb.len() as int, x, y, b),
    ensures
        y >= 48 ==> headed(fb, g, s, title)[place(g, x, y, b)] == fb[place(g, x, y, b)],
        y < 48 && (y < 14 || y >= 14 + 8 * s || x < 12) ==> headed(fb, g, s, title)[place(g, x, y, b)] == ink(
            g.pixel_format,
            0x0B5ED7,
            b,
            fb[place(g, x, y, b)],
        ),
{
    let c = Canvas { fb, dirty: None };
    let h = if 48 < g.height { 48int } else { g.height as int };
    law_rectangle(c, g, 0, g.width as int, 0, h, 0x0B5ED7, false, x, y, b);
    let bar = rect_filled(c, g, 0, g.width as int, 0, h, 0x0B5ED7, false);
    lemma_text(Pen { canvas: bar, x: 12, y: 14 }, g, s, title, title.len() as int, x, y, b);
}

/// The clock stands in the header, sixteen pixels from the right edge where it fits.
pub proof fn law_clock_place(g: FrameBufferInfo, s: int, n: int)
    requires
        s == 1 || s == 2,
        0 <= n,
    ensures
        9 * s * n + 16 < g.width ==> clock_x(g, s, n) + 9 * s * n + 16 == g.width,
        9 * s * n + 16 >= g.width ==> clock_x(g, s, n) == 0,
{
    assert(n * 9 * s == 9 * s * n) by (nonlinear_arith);
}

/// Drawing the clock changes nothing below the header, nor anything above its place or to the
/// left of it.
pub proof fn law_clock_spares_the_rest(fb: Seq<u8>, g: FrameBufferInfo, s: int, text: Seq<char>, x: int, y: int, b: int)
    requires
        g.wf(),
        roomy(g),
        s == 1 || s == 2,
        on_screen(g, fb.len() as int, x, y, b),
        y < 8 || y >= 48 || x < clock_x(g, s, text.len() as int) - 8,
    ensures
        clocked(fb, g, s, text)[place(g, x, y, b)] == fb[place(g, x, y, b)],
{
    let cx = clock_x(g, s, text.len() as int);
    let left = if cx > 8 { cx - 8 } else { 0 };
    let right = cx + text.len() * 9 * s + 8;
    let c = Canvas { fb, dirty: None };
    let edge = if right < g.width { right } else { g.width as int };
    let low = if 14 + 8 * s + 6 < 48 { 14 + 8 * s + 6 } else { 48int };
    assert(0 <= cx);
    law_rectangle(c, g, left, edge, 8, low, 0x0B5ED7, false, x, y, b);
    let erased = rect_filled(c, g, left, edge, 8, low, 0x0B5ED7, false);
    lemma_text(Pen { canvas: erased, x: cx, y: 14 }, g, s, text, text.len() as int, x, y, b);
}

/// Text doubles in size from a width of 1600 pixels on.
pub proof fn law_text_scale(width: u64)
    ensures
        width < 1600 ==> text_scale(width) == 1,
        width >= 1600 ==> text_scale(width) == 2,
{
}

#[verifier::spinoff_prover]
#[verifier::rlimit(60)]
proof fn lemma_arrow_pixel(fb: Seq<u8>, g: FrameBufferInfo, u: int, v: int, n: int, x: int, y: int, b: int)
    requires
        g.wf(),
        roomy(g),
        0 <= u,
        0 <= v,
        0 <= n <= 384,
        on_screen(g, fb.len() as int, x, y, b),
    ensures
        arrow_drawn(fb, g, u, v, n).len() == fb.len(),
        arrow_drawn(fb, g, u, v, n)[place(g, x, y, b)] == if u <= x < u + 16 && v <= y && 16 * (y - v) + (x - u) < n
            && cursor_line(y - v)[x - u] == 'X' {
            ink(g.pixel_format, 0, b, fb[place(g, x, y, b)])
        } else if u <= x < u + 16 && v <= y && 16 * (y - v) + (x - u) < n && cursor_line(y - v)[x - u] == '#' {
            ink(g.pixel_format, 0xFFFFFF, b, fb[place(g, x, y, b)])
        } else {
            fb[place(g, x, y, b)] as int
        },
    decreases n,
{
    if n > 0 {
        lemma_arrow_pixel(fb, g, u, v, n - 1, x, y, b);
        let d = arrow_drawn(fb, g, u, v, n - 1);
        let c = cursor_line((n - 1) / 16)[(n - 1) % 16];
        law_pixel(
            Canvas { fb: d, dirty: None },
            g,
            u + (n - 1) % 16,
            v + (n - 1) / 16,
            if c == 'X' { 0 } else { 0xFFFFFF },
            false,
            x,
            y,
            b,
        );
        if u <= x < u + 16 && v <= y && 16 * (y - v) + (x - u) == n - 1 {
            assert((n - 1) / 16 == y - v && (n - 1) % 16 == x - u);
        }
        if x == u + (n - 1) % 16 && y == v + (n - 1) / 16 {
            assert(16 * (y - v) + (x - u) == n - 1);
        }
    }
}

/// The pointer is drawn as an arrow with a black edge and a white body, its tip at its place,
/// 16 pixels wide and 24 high; the rest of the screen stays.
pub proof fn law_arrow(fb: Seq<u8>, g: FrameBufferInfo, u: int, v: int, x: int, y: int, b: int)
    requires
        g.wf(),
        roomy(g),
        0 <= u,
        0 <= v,
        on_screen(g, fb.len() as int, x, y, b),
    ensures
        !(u <= x < u + 16 && v <= y < v + 24) ==> arrow(fb, g, u, v)[place(g, x, y, b)] == fb[place(g, x, y, b)],
        v < y < v + 13 && (x == u || x == u + (y - v)) ==> arrow(fb, g, u, v)[place(g, x, y, b)] == ink(
            g.pixel_format,
            0,
            b,
            fb[place(g, x, y, b)],
        ),
        v < y < v + 13 && u < x < u + (y - v) ==> arrow(fb, g, u, v)[place(g, x, y, b)] == ink(
            g.pixel_format,
            0xFFFFFF,
            b,
            fb[place(g, x, y, b)],
        ),
        v < y < v + 13 && u + (y - v) < x ==> arrow(fb, g, u, v)[place(g, x, y, b)] == fb[place(g, x, y, b)],
{
    lemma_arrow_pixel(fb, g, u, v, 384, x, y, b);
    if v < y < v + 13 && u <= x < u + 16 {
        lemma_arrow_shape(y - v, x - u);
    }
}

#[verifier::spinoff_prover]
#[verifier::rlimit(60)]
proof fn lemma_arrow_shape(row: int, col: int)
    requires
        0 < row < 13,
        0 <= col < 16,
    ensures
        col == 0 || col == row ==> cursor_line(row)[col] == 'X',
        0 < col < row ==> cursor_line(row)[col] == '#',
        row < col ==> cursor_line(row)[col] == '.',
{
    reveal_strlit("XX..............");
    reveal_strlit("X#X.............");
    reveal_strlit("X##X............");
    reveal_strlit("X###X...........");
    reveal_strlit("X####X..........");
    reveal_strlit("X#####X.........");
    reveal_strlit("X######X........");
    reveal_strlit("X#######X.......");
    reveal_strlit("X########X......");
    reveal_strlit("X#########X.....");
    reveal_strlit("X##########X....");
    reveal_strlit("X###########X...");
}

/// Slow motion counts as it is, fast motion four times, and between the factor grows by one
/// for every thirty-two counts.
pub proof fn law_pointer_speed(v: int)
    ensures
        -8 < v < 8 ==> motion(0, v).0 == v && motion(0, v).1 == 0,
        v >= 96 || v <= -96 ==> motion(0, v).0 == 4 * v && motion(0, v).1 == 0,
        8 <= v < 96 ==> 4 * gain(v) <= 32 + v < 4 * (gain(v) + 1),
{
    if -8 < v < 8 {
        assert(v * gain(v) == 8 * v);
    }
    if v >= 96 || v <= -96 {
        assert(v * gain(v) == 32 * v);
    }
}

/// The pointer stays where its arrow fits on the screen, and starts in the middle.
pub proof fn law_pointer_range(v: int, n: u64, size: u64)
    requires
        size > 0,
    ensures
        clamped(v, last_fit(n, size)) <= last_fit(n, size),
        0 <= v <= last_fit(n, size) ==> clamped(v, last_fit(n, size)) == v,
        n >= size ==> last_fit(n, size) + size == n,
        n < size ==> last_fit(n, size) == 0,
        middle(n, size) <= last_fit(n, size),
        n >= 2 * size ==> middle(n, size) == n / 2,
{
}

} // verus!
