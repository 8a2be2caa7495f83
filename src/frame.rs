use vstd::prelude::*;

verus! {

/// A colour with 8-bit channels.
#[derive(Clone, Copy, Debug, PartialEq, Eq, Structural)]
pub struct Color {
    pub r: u8,
    pub g: u8,
    pub b: u8,
    pub a: u8,
}

/// A channel scaled by a coverage byte, where 255 stands for full coverage.
pub open spec fn scaled(c: u8, coverage: u8) -> u8 {
    ((c as int * coverage as int) / 255) as u8
}

impl Color {
    pub fn new(r: u8, g: u8, b: u8, a: u8) -> (c: Color)
        ensures
            c == (Color { r, g, b, a }),
    {
        Color { r, g, b, a }
    }

    pub open spec fn spec_multiply(self, coverage: u8) -> Color {
        Color {
            r: scaled(self.r, coverage),
            g: scaled(self.g, coverage),
            b: scaled(self.b, coverage),
            a: scaled(self.a, coverage),
        }
    }

    /// Every channel scaled by `coverage / 255`, rounded down.
    pub fn multiply(&self, coverage: u8) -> (c: Color)
        ensures
            c == self.spec_multiply(coverage),
    {
        Color {
            r: scale_channel(self.r, coverage),
            g: scale_channel(self.g, coverage),
            b: scale_channel(self.b, coverage),
            a: scale_channel(self.a, coverage),
        }
    }

    /// The colour as the display's 32-bit pixel: blue in the low byte, then
    /// green, red and alpha.
    pub fn to_bgra(self) -> (p: u32)
        ensures
            p == self.b as u32 + self.g as u32 * 0x100 + self.r as u32 * 0x10000 + self.a as u32 * 0x1000000,
    {
        self.b as u32 + self.g as u32 * 0x100 + self.r as u32 * 0x10000 + self.a as u32 * 0x1000000
    }
}

fn scale_channel(c: u8, coverage: u8) -> (r: u8)
    ensures
        r == scaled(c, coverage),
{
    assert(c as int * coverage as int <= 255 * 255) by (nonlinear_arith)
        requires
            c <= 255,
            coverage <= 255,
    ;
    let p: u32 = c as u32 * coverage as u32;
    (p / 255) as u8
}

/// The colour of a fresh frame's pixels.
pub open spec fn transparent() -> Color {
    Color { r: 0, g: 0, b: 0, a: 0 }
}

/// A frame, mathematically: its size and its pixels row by row.
pub ghost struct FrameView {
    pub width: nat,
    pub height: nat,
    pub pixels: Seq<Color>,
}

impl FrameView {
    pub open spec fn at(self, px: int, py: int) -> Color {
        self.pixels[py * self.width + px]
    }

    pub open spec fn inside(self, px: int, py: int) -> bool {
        0 <= px < self.width && 0 <= py < self.height
    }
}

/// Whether `bytes` holds `pixels` four bytes each, in the order blue, green,
/// red, alpha.
pub open spec fn encodes(bytes: Seq<u8>, pixels: Seq<Color>) -> bool {
    &&& bytes.len() == 4 * pixels.len()
    &&& forall|i: int|
        0 <= i < pixels.len() ==> {
            &&& bytes[4 * i] == (#[trigger] pixels[i]).b
            &&& bytes[4 * i + 1] == pixels[i].g
            &&& bytes[4 * i + 2] == pixels[i].r
            &&& bytes[4 * i + 3] == pixels[i].a
        }
}

/// Largest number of bytes a frame holds: its size is computed in 32 bits.
pub open spec fn fits(width: int, height: int) -> bool {
    4 * width * height <= u32::MAX
}

/// An owned pixel buffer of `width * height` 32-bit pixels.
pub struct Frame {
    buf: Vec<u8>,
    width: u32,
    height: u32,
}

impl View for Frame {
    type V = FrameView;

    closed spec fn view(&self) -> FrameView {
        FrameView {
            width: self.width as nat,
            height: self.height as nat,
            pixels: Seq::new(
                (self.width * self.height) as nat,
                |i: int|
                    Color {
                        b: self.buf@[4 * i],
                        g: self.buf@[4 * i + 1],
                        r: self.buf@[4 * i + 2],
                        a: self.buf@[4 * i + 3],
                    },
            ),
        }
    }
}

pub proof fn lemma_index_in_bounds(w: int, h: int, px: int, py: int)
    requires
        0 <= px < w,
        0 <= py < h,
    ensures
        0 <= py * w + px < w * h,
{
    assert(py * w + px < w * h) by (nonlinear_arith)
        requires
            0 <= px < w,
            0 <= py < h,
    ;
    assert(0 <= py * w) by (nonlinear_arith)
        requires
            0 <= py,
            0 <= w,
    ;
}

pub proof fn lemma_index_unique(w: int, px: int, py: int, qx: int, qy: int)
    requires
        0 <= px < w,
        0 <= qx < w,
        0 <= py,
        0 <= qy,
        py * w + px == qy * w + qx,
    ensures
        px == qx,
        py == qy,
{
    if py < qy {
        assert(py * w + w <= qy * w) by (nonlinear_arith)
            requires
                py < qy,
                0 <= w,
        ;
    } else if qy < py {
        assert(qy * w + w <= py * w) by (nonlinear_arith)
            requires
                qy < py,
                0 <= w,
        ;
    }
}

impl Frame {
    pub closed spec fn wf(&self) -> bool {
        &&& fits(self.width as int, self.height as int)
        &&& self.buf@.len() == 4 * (self.width * self.height)
    }

    /// The bytes of the frame, as the display takes them.
    pub closed spec fn bytes(&self) -> Seq<u8> {
        self.buf@
    }

    /// A `width` by `height` frame of transparent black.
    pub fn new(width: u32, height: u32) -> (f: Frame)
        requires
            fits(width as int, height as int),
        ensures
            f.wf(),
            f@.width == width,
            f@.height == height,
            f@.pixels == Seq::new((width * height) as nat, |i: int| transparent()),
    {
        proof {
            let (w, h) = (width as int, height as int);
            assert(w * h <= w * h * 4 && w * h * 4 == 4 * w * h) by (nonlinear_arith)
                requires
                    w >= 0,
                    h >= 0,
            ;
        }
        let n: u32 = width * height * 4;
        let f = Frame { buf: vec![0u8; n as usize], width, height };
        assert(f@.pixels =~= Seq::new((width * height) as nat, |i: int| transparent()));
        f
    }

    pub fn width(&self) -> (r: u32)
        ensures
            r == self@.width,
    {
        self.width
    }

    pub fn height(&self) -> (r: u32)
        ensures
            r == self@.height,
    {
        self.height
    }

    /// The pixel at column `x` of row `y`.
    pub fn pixel(&self, x: u32, y: u32) -> (c: Color)
        requires
            self.wf(),
            x < self@.width,
            y < self@.height,
        ensures
            c == self@.at(x as int, y as int),
    {
        proof {
            self.lemma_wf_len();
            lemma_index_in_bounds(self.width as int, self.height as int, x as int, y as int);
        }
        let i = y as usize * self.width as usize + x as usize;
        self.get(i)
    }

    /// The pixel bytes, blue, green, red and alpha for each pixel, row by row.
    pub fn buf_u8(&self) -> (r: &[u8])
        requires
            self.wf(),
        ensures
            r@ == self.bytes(),
            encodes(r@, self@.pixels),
    {
        self.buf.as_slice()
    }

    pub(crate) proof fn lemma_wf_len(&self)
        requires
            self.wf(),
        ensures
            self@.pixels.len() == self@.width * self@.height,
            self.bytes().len() == 4 * self@.pixels.len(),
            self@.pixels.len() <= u32::MAX / 4,
    {
        let w = self.width as int;
        let h = self.height as int;
        assert(w * h <= 4 * w * h) by (nonlinear_arith)
            requires
                w >= 0,
                h >= 0,
        ;
        assert(4 * w * h == 4 * (w * h)) by (nonlinear_arith);
    }

    /// Writes pixel number `i`.
    pub(crate) fn set(&mut self, i: usize, c: Color)
        requires
            old(self).wf(),
            i < old(self)@.pixels.len(),
        ensures
            final(self).wf(),
            final(self)@ == (FrameView { pixels: old(self)@.pixels.update(i as int, c), ..old(self)@ }),
    {
        proof {
            self.lemma_wf_len();
        }
        let k = 4 * i;
        self.buf.set(k, c.b);
        self.buf.set(k + 1, c.g);
        self.buf.set(k + 2, c.r);
        self.buf.set(k + 3, c.a);
        assert(self@.pixels =~= old(self)@.pixels.update(i as int, c));
    }

    /// Pixel number `i`.
    pub(crate) fn get(&self, i: usize) -> (c: Color)
        requires
            self.wf(),
            i < self@.pixels.len(),
        ensures
            c == self@.pixels[i as int],
    {
        proof {
            self.lemma_wf_len();
        }
        let k = 4 * i;
        Color { b: self.buf[k], g: self.buf[k + 1], r: self.buf[k + 2], a: self.buf[k + 3] }
    }

    /// Fills pixels `start` up to `end` (exclusive) with `c`.
    fn fill_span(&mut self, start: usize, end: usize, c: Color)
        requires
            old(self).wf(),
            start <= end <= old(self)@.pixels.len(),
        ensures
            final(self).wf(),
            final(self)@.width == old(self)@.width,
            final(self)@.height == old(self)@.height,
            final(self)@.pixels.len() == old(self)@.pixels.len(),
            forall|i: int|
                0 <= i < old(self)@.pixels.len() ==> #[trigger] final(self)@.pixels[i] == if start <= i < end {
                    c
                } else {
                    old(self)@.pixels[i]
                },
    {
        let mut k = start;
        while k < end
            invariant
                self.wf(),
                start <= k <= end,
                end <= self@.pixels.len(),
                self@.width == old(self)@.width,
                self@.height == old(self)@.height,
                self@.pixels.len() == old(self)@.pixels.len(),
                forall|i: int|
                    0 <= i < old(self)@.pixels.len() ==> #[trigger] self@.pixels[i] == if start <= i < k {
                        c
                    } else {
                        old(self)@.pixels[i]
                    },
            decreases end - k,
        {
            self.set(k, c);
            k += 1;
        }
    }
}

/// The frame `f` with each pixel `(px, py)` replaced by `g(px, py)`.
pub open spec fn pixel_map(f: FrameView, g: spec_fn(int, int) -> Color) -> FrameView {
    FrameView {
        pixels: Seq::new(f.pixels.len(), |i: int| g(i % f.width as int, i / f.width as int)),
        ..f
    }
}

pub open spec fn in_rect(px: int, py: int, x: int, y: int, w: int, h: int) -> bool {
    x <= px < x + w && y <= py < y + h
}

/// The frame `f` with the rectangle at `(x, y)` of `w` by `h` pixels painted
/// `c`; what falls outside the frame is dropped.
pub open spec fn filled(f: FrameView, x: int, y: int, w: int, h: int, c: Color) -> FrameView {
    pixel_map(f, |px: int, py: int| if in_rect(px, py, x, y, w, h) { c } else { f.at(px, py) })
}

/// The frame `dst` with `src` copied in at offset `(x, y)`; what falls
/// outside `dst` is dropped.
pub open spec fn blitted(dst: FrameView, src: FrameView, x: int, y: int) -> FrameView {
    pixel_map(
        dst,
        |px: int, py: int|
            if src.inside(px - x, py - y) {
                src.at(px - x, py - y)
            } else {
                dst.at(px, py)
            },
    )
}

/// A frame is determined by its size and by its pixel at each position.
pub proof fn lemma_pixel_map(a: FrameView, f: FrameView, g: spec_fn(int, int) -> Color)
    requires
        a.width == f.width,
        a.height == f.height,
        a.pixels.len() == f.pixels.len(),
        f.pixels.len() == f.width * f.height,
        forall|px: int, py: int| f.inside(px, py) ==> #[trigger] a.at(px, py) == g(px, py),
    ensures
        a == pixel_map(f, g),
{
    let b = pixel_map(f, g);
    assert forall|i: int| 0 <= i < a.pixels.len() implies a.pixels[i] == b.pixels[i] by {
        let w = f.width as int;
        vstd::arithmetic::div_mod::lemma_fundamental_div_mod(i, w);
        vstd::arithmetic::div_mod::lemma_mod_bound(i, w);
        let px = i % w;
        let py = i / w;
        assert(py * w == w * py) by (nonlinear_arith);
        assert(py < f.height as int) by (nonlinear_arith)
            requires
                i == w * py + px,
                i < w * f.height,
                0 <= px,
                w > 0,
        ;
        assert(py >= 0) by (nonlinear_arith)
            requires
                i == w * py + px,
                0 <= i,
                px < w,
                w > 0,
        ;
        assert(f.inside(px, py));
        assert(a.at(px, py) == g(px, py));
    }
    assert(a.pixels =~= b.pixels);
}

impl Frame {
    /// Paints the rectangle at `(x, y)` of `w` by `h` pixels with `color`;
    /// what falls outside the frame is dropped.
    pub fn draw_rect(&mut self, x: u32, y: u32, w: u32, h: u32, color: &Color)
        requires
            old(self).wf(),
        ensures
            final(self).wf(),
            final(self)@ == filled(old(self)@, x as int, y as int, w as int, h as int, *color),
    {
        proof {
            self.lemma_wf_len();
        }
        let width = self.width as u64;
        let height = self.height as u64;
        let xe: u64 = if x as u64 + w as u64 <= width { x as u64 + w as u64 } else { width };
        let ye: u64 = if y as u64 + h as u64 <= height { y as u64 + h as u64 } else { height };
        let c = *color;
        let ghost f0 = old(self)@;
        let mut row: u64 = y as u64;
        while row < ye
            invariant
                self.wf(),
                self@.width == f0.width,
                self@.height == f0.height,
                self@.pixels.len() == f0.pixels.len(),
                f0.pixels.len() == f0.width * f0.height,
                f0.pixels.len() <= u32::MAX / 4,
                width == f0.width,
                height == f0.height,
                xe <= width,
                ye <= height,
                xe == x + w || xe == width,
                ye == y + h || ye == height,
                x + w >= xe,
                y + h >= ye,
                y <= row,
                row <= ye || row == y,
                forall|px: int, py: int|
                    f0.inside(px, py) ==> #[trigger] self@.at(px, py) == if x <= px < xe && y <= py < row {
                        c
                    } else {
                        f0.at(px, py)
                    },
            decreases ye - row,
        {
            if x as u64 <= xe {
                let ghost before = self@;
                proof {
                    assert(row * width + xe <= width * height) by (nonlinear_arith)
                        requires
                            row < height,
                            xe <= width,
                    ;
                    assert(width * height == f0.pixels.len());
                }
                let start = (row * width + x as u64) as usize;
                let end = (row * width + xe) as usize;
                self.fill_span(start, end, c);
                proof {
                    assert forall|px: int, py: int| f0.inside(px, py) implies #[trigger] self@.at(px, py) == if x <= px < xe && y <= py < row + 1 {
                        c
                    } else {
                        f0.at(px, py)
                    } by {
                        let i = py * width + px;
                        lemma_index_in_bounds(width as int, height as int, px, py);
                        assert(self@.pixels[i] == self@.at(px, py));
                        assert(before.pixels[i] == before.at(px, py));
                        if start <= i < end {
                            assert(row * width + x <= py * width + px < row * width + xe);
                            if py < row {
                                assert(py * width + width <= row * width) by (nonlinear_arith)
                                    requires py < row, width >= 0;
                            } else if py > row {
                                assert(row * width + width <= py * width) by (nonlinear_arith)
                                    requires row < py, width >= 0;
                            }
                        } else if py == row {
                        }
                    }
                }
            }
            row += 1;
        }
        proof {
            let g = |px: int, py: int| if in_rect(px, py, x as int, y as int, w as int, h as int) { c } else { f0.at(px, py) };
            assert forall|px: int, py: int| f0.inside(px, py) implies #[trigger] self@.at(px, py) == g(px, py) by {
                assert((x <= px < xe && y <= py < row) == in_rect(px, py, x as int, y as int, w as int, h as int));
            }
            lemma_pixel_map(self@, f0, g);
        }
    }

    /// Paints the four borders, `bw` pixels thick, just inside the rectangle
    /// at `(x, y)` of `w` by `h` pixels; nothing is painted when `bw` is 0.
    pub fn draw_rect_outline(&mut self, x: u32, y: u32, w: u32, h: u32, bw: u32, color: &Color)
        requires
            old(self).wf(),
            x + w <= u32::MAX,
            y + h <= u32::MAX,
        ensures
            final(self).wf(),
            final(self)@ == outlined(old(self)@, x as int, y as int, w as int, h as int, bw as int, *color),
    {
        if bw == 0 {
            return;
        }
        let rx: u32 = if x + w >= bw { x + w - bw } else { 0 };
        let dy: u32 = if y + h >= bw { y + h - bw } else { 0 };
        self.draw_rect(x, y, bw, h, color);
        self.draw_rect(x, y, w, bw, color);
        self.draw_rect(rx, y, bw, h, color);
        self.draw_rect(x, dy, w, bw, color);
    }

    /// Paints a horizontal line `width` pixels thick from `x1` up to `x2` at
    /// height `y`; nothing is painted when `width` is 0 or `x2 <= x1`.
    pub fn draw_hline(&mut self, width: u32, y: u32, x1: u32, x2: u32, color: &Color)
        requires
            old(self).wf(),
        ensures
            final(self).wf(),
            final(self)@ == if width == 0 {
                old(self)@
            } else {
                filled(old(self)@, x1 as int, y as int, if x2 > x1 { x2 - x1 } else { 0 }, width as int, *color)
            },
    {
        if width == 0 {
            return;
        }
        let w: u32 = if x2 > x1 { x2 - x1 } else { 0 };
        self.draw_rect(x1, y, w, width, color);
    }

    /// Copies `frame` in at offset `(x, y)`; rows and columns that fall
    /// outside this frame are dropped.
    pub fn blit_frame(&mut self, frame: &Frame, x: i32, y: i32)
        requires
            old(self).wf(),
            frame.wf(),
        ensures
            final(self).wf(),
            final(self)@ == blitted(old(self)@, frame@, x as int, y as int),
    {
        proof {
            self.lemma_wf_len();
            frame.lemma_wf_len();
        }
        let ghost f0 = old(self)@;
        let ghost s = frame@;
        let dw = self.width as i64;
        let dh = self.height as i64;
        let sw = frame.width as i64;
        let sh = frame.height as i64;
        let mut sy: i64 = 0;
        while sy < sh
            invariant
                self.wf(),
                frame.wf(),
                s == frame@,
                self@.width == f0.width,
                self@.height == f0.height,
                self@.pixels.len() == f0.pixels.len(),
                f0.pixels.len() == f0.width * f0.height,
                f0.pixels.len() <= u32::MAX / 4,
                s.pixels.len() == s.width * s.height,
                s.pixels.len() <= u32::MAX / 4,
                dw == f0.width,
                dh == f0.height,
                sw == s.width,
                sh == s.height,
                0 <= sy <= sh,
                forall|px: int, py: int|
                    f0.inside(px, py) ==> #[trigger] self@.at(px, py) == if s.inside(px - x, py - y) && py - y < sy {
                        s.at(px - x, py - y)
                    } else {
                        f0.at(px, py)
                    },
            decreases sh - sy,
        {
            let dy = y as i64 + sy;
            if 0 <= dy && dy < dh {
                let mut sx: i64 = 0;
                while sx < sw
                    invariant
                        self.wf(),
                        frame.wf(),
                        s == frame@,
                        self@.width == f0.width,
                        self@.height == f0.height,
                        self@.pixels.len() == f0.pixels.len(),
                        f0.pixels.len() == f0.width * f0.height,
                        f0.pixels.len() <= u32::MAX / 4,
                        s.pixels.len() == s.width * s.height,
                        s.pixels.len() <= u32::MAX / 4,
                        dw == f0.width,
                        dh == f0.height,
                        sw == s.width,
                        sh == s.height,
                        0 <= sy < sh,
                        dy == y + sy,
                        0 <= dy < dh,
                        0 <= sx <= sw,
                        forall|px: int, py: int|
                            f0.inside(px, py) ==> #[trigger] self@.at(px, py) == if s.inside(px - x, py - y) && (py - y < sy
                                || (py - y == sy && px - x < sx)) {
                                s.at(px - x, py - y)
                            } else {
                                f0.at(px, py)
                            },
                    decreases sw - sx,
                {
                    let dx = x as i64 + sx;
                    if 0 <= dx && dx < dw {
                        proof {
                            lemma_index_in_bounds(dw as int, dh as int, dx as int, dy as int);
                            lemma_index_in_bounds(sw as int, sh as int, sx as int, sy as int);
                        }
                        let c = frame.get((sy * sw + sx) as usize);
                        let ghost before = self@;
                        self.set((dy * dw + dx) as usize, c);
                        proof {
                            assert forall|px: int, py: int| f0.inside(px, py) implies #[trigger] self@.at(px, py) == if s.inside(px - x, py - y) && (py - y < sy
                                || (py - y == sy && px - x < sx + 1)) {
                                s.at(px - x, py - y)
                            } else {
                                f0.at(px, py)
                            } by {
                                lemma_index_in_bounds(dw as int, dh as int, px, py);
                                assert(self@.pixels[py * dw + px] == self@.at(px, py));
                                assert(before.pixels[py * dw + px] == before.at(px, py));
                                if py * dw + px == dy * dw + dx {
                                    lemma_index_unique(dw as int, px, py, dx as int, dy as int);
                                }
                            }
                        }
                    }
                    sx += 1;
                }
            }
            sy += 1;
        }
        proof {
            let g = |px: int, py: int|
                if s.inside(px - x, py - y) {
                    s.at(px - x, py - y)
                } else {
                    f0.at(px, py)
                };
            assert forall|px: int, py: int| f0.inside(px, py) implies #[trigger] self@.at(px, py) == g(px, py) by {
            }
            lemma_pixel_map(self@, f0, g);
        }
    }
}

/// The four borders of `draw_rect_outline`, painted left, top, right, bottom.
pub open spec fn outlined(f: FrameView, x: int, y: int, w: int, h: int, bw: int, c: Color) -> FrameView {
    if bw == 0 {
        f
    } else {
        let rx = if x + w >= bw { x + w - bw } else { 0 };
        let dy = if y + h >= bw { y + h - bw } else { 0 };
        filled(filled(filled(filled(f, x, y, bw, h, c), x, y, w, bw, c), rx, y, bw, h, c), x, dy, w, bw, c)
    }
}

/// Blitting a frame that lies wholly outside the destination, on any side,
/// leaves the destination unchanged.
pub proof fn law_blit_outside(dst: FrameView, src: FrameView, x: int, y: int)
    requires
        dst.pixels.len() == dst.width * dst.height,
        x >= dst.width || y >= dst.height || x + src.width <= 0 || y + src.height <= 0,
    ensures
        blitted(dst, src, x, y) == dst,
{
    let g = |px: int, py: int|
        if src.inside(px - x, py - y) {
            src.at(px - x, py - y)
        } else {
            dst.at(px, py)
        };
    assert forall|px: int, py: int| dst.inside(px, py) implies #[trigger] dst.at(px, py) == g(px, py) by {
    }
    lemma_pixel_map(dst, dst, g);
}

/// The pixel that a 32-bit ARGB value stands for.
pub open spec fn argb_color(v: u32) -> Color {
    Color {
        b: (v % 0x100) as u8,
        g: ((v / 0x100) % 0x100) as u8,
        r: ((v / 0x10000) % 0x100) as u8,
        a: (v / 0x1000000) as u8,
    }
}

/// Pixel `i` of an RGBA byte buffer.
pub open spec fn rgba_color(bytes: Seq<u8>, i: int) -> Color {
    Color { r: bytes[4 * i], g: bytes[4 * i + 1], b: bytes[4 * i + 2], a: bytes[4 * i + 3] }
}

impl Frame {
    /// A `width` by `height` frame whose first pixels are the ARGB values of
    /// `buf`; the rest stay transparent.
    pub fn from_argb_u32(buf: &[u32], width: u32, height: u32) -> (f: Frame)
        requires
            fits(width as int, height as int),
            buf@.len() <= width * height,
        ensures
            f.wf(),
            f@.width == width,
            f@.height == height,
            f@.pixels.len() == width * height,
            forall|i: int|
                0 <= i < f@.pixels.len() ==> #[trigger] f@.pixels[i] == if i < buf@.len() {
                    argb_color(buf@[i])
                } else {
                    transparent()
                },
    {
        let mut f = Frame::new(width, height);
        let mut i: usize = 0;
        while i < buf.len()
            invariant
                f.wf(),
                f@.width == width,
                f@.height == height,
                f@.pixels.len() == width * height,
                buf@.len() <= width * height,
                0 <= i <= buf@.len(),
                forall|k: int|
                    0 <= k < f@.pixels.len() ==> #[trigger] f@.pixels[k] == if k < i {
                        argb_color(buf@[k])
                    } else {
                        transparent()
                    },
            decreases buf.len() - i,
        {
            let v = buf[i];
            let c = Color {
                b: (v % 0x100) as u8,
                g: ((v / 0x100) % 0x100) as u8,
                r: ((v / 0x10000) % 0x100) as u8,
                a: (v / 0x1000000) as u8,
            };
            f.set(i, c);
            i += 1;
        }
        f
    }

    /// A `width` by `height` frame whose first pixels are those of the RGBA
    /// bytes `buf`; the rest stay transparent.
    pub fn from_rgba_u8(buf: &[u8], width: u32, height: u32) -> (f: Frame)
        requires
            fits(width as int, height as int),
            buf@.len() % 4 == 0,
            buf@.len() <= 4 * width * height,
        ensures
            f.wf(),
            f@.width == width,
            f@.height == height,
            f@.pixels.len() == width * height,
            forall|i: int|
                0 <= i < f@.pixels.len() ==> #[trigger] f@.pixels[i] == if 4 * i < buf@.len() {
                    rgba_color(buf@, i)
                } else {
                    transparent()
                },
    {
        let mut f = Frame::new(width, height);
        proof {
            f.lemma_wf_len();
            assert(4 * width * height == 4 * (width * height)) by (nonlinear_arith);
        }
        let n = buf.len() / 4;
        let mut i: usize = 0;
        while i < n
            invariant
                f.wf(),
                f@.width == width,
                f@.height == height,
                f@.pixels.len() == width * height,
                n * 4 == buf@.len(),
                n <= f@.pixels.len(),
                f@.pixels.len() <= u32::MAX / 4,
                0 <= i <= n,
                forall|k: int|
                    0 <= k < f@.pixels.len() ==> #[trigger] f@.pixels[k] == if k < i {
                        rgba_color(buf@, k)
                    } else {
                        transparent()
                    },
            decreases n - i,
        {
            let c = Color { r: buf[4 * i], g: buf[4 * i + 1], b: buf[4 * i + 2], a: buf[4 * i + 3] };
            f.set(i, c);
            i += 1;
        }
        f
    }

    /// Gives the frame a new size. The buffer is cut or extended with
    /// transparent pixels: the first pixels keep their values.
    pub fn resize(&mut self, width: u32, height: u32)
        requires
            old(self).wf(),
            fits(width as int, height as int),
        ensures
            final(self).wf(),
            final(self)@.width == width,
            final(self)@.height == height,
            final(self)@.pixels.len() == width * height,
            forall|i: int|
                0 <= i < final(self)@.pixels.len() ==> #[trigger] final(self)@.pixels[i] == if i < old(self)@.pixels.len() {
                    old(self)@.pixels[i]
                } else {
                    transparent()
                },
    {
        proof {
            self.lemma_wf_len();
            let (w, h) = (width as int, height as int);
            assert(w * h <= w * h * 4 && w * h * 4 == 4 * w * h) by (nonlinear_arith)
                requires
                    w >= 0,
                    h >= 0,
            ;
        }
        let ghost f0 = self@;
        let ghost b0 = self.buf@;
        let n = (width * height * 4) as usize;
        if n <= self.buf.len() {
            self.buf.truncate(n);
        } else {
            while self.buf.len() < n
                invariant
                    n as int == 4 * (width * height),
                    b0.len() <= self.buf@.len() <= n,
                    self.buf@.subrange(0, b0.len() as int) == b0,
                    forall|k: int| b0.len() <= k < self.buf@.len() ==> self.buf@[k] == 0,
                decreases n - self.buf.len(),
            {
                let ghost prev = self.buf@;
                self.buf.push(0);
                assert(self.buf@.subrange(0, b0.len() as int) =~= prev.subrange(0, b0.len() as int));
            }
        }
        self.width = width;
        self.height = height;
        proof {
            assert forall|i: int| 0 <= i < self@.pixels.len() implies #[trigger] self@.pixels[i] == if i < f0.pixels.len() {
                f0.pixels[i]
            } else {
                transparent()
            } by {
                if i < f0.pixels.len() {
                    assert(self.buf@[4 * i] == b0[4 * i]);
                    assert(self.buf@[4 * i + 1] == b0[4 * i + 1]);
                    assert(self.buf@[4 * i + 2] == b0[4 * i + 2]);
                    assert(self.buf@[4 * i + 3] == b0[4 * i + 3]);
                }
            }
        }
    }
}


/// The frame `f` with a glyph's coverage bitmap (`gw` by `gh` bytes, row by
/// row) painted at `(gx, gy)`: each covered pixel becomes `color` scaled by
/// its coverage, without reading what was there; pixels of zero coverage and
/// pixels outside the frame are left alone.
pub open spec fn glyph_painted(
    f: FrameView,
    coverage: Seq<u8>,
    gw: int,
    gh: int,
    gx: int,
    gy: int,
    color: Color,
) -> FrameView {
    pixel_map(
        f,
        |px: int, py: int|
            if 0 <= px - gx < gw && 0 <= py - gy < gh && coverage[(py - gy) * gw + (px - gx)] != 0 {
                color.spec_multiply(coverage[(py - gy) * gw + (px - gx)])
            } else {
                f.at(px, py)
            },
    )
}

impl Frame {
    /// Paints a glyph's coverage bitmap at `(gx, gy)` in `color`.
    pub fn draw_glyph(&mut self, coverage: &Vec<u8>, gw: usize, gh: usize, gx: usize, gy: usize, color: &Color)
        requires
            old(self).wf(),
            gw * gh <= coverage@.len(),
        ensures
            final(self).wf(),
            final(self)@ == glyph_painted(old(self)@, coverage@, gw as int, gh as int, gx as int, gy as int, *color),
    {
        proof {
            self.lemma_wf_len();
        }
        let ghost f0 = old(self)@;
        let ghost cv = coverage@;
        let clen = coverage.len();
        let c = *color;
        let fw = self.width as u128;
        let fh = self.height as u128;
        let mut row: usize = 0;
        while row < gh
            invariant
                self.wf(),
                self@.width == f0.width,
                self@.height == f0.height,
                self@.pixels.len() == f0.pixels.len(),
                f0.pixels.len() == f0.width * f0.height,
                f0.pixels.len() <= u32::MAX / 4,
                fw == f0.width,
                fh == f0.height,
                cv == coverage@,
                clen == cv.len(),
                gw * gh <= cv.len(),
                0 <= row <= gh,
                forall|px: int, py: int|
                    f0.inside(px, py) ==> #[trigger] self@.at(px, py) == if 0 <= px - gx < gw && 0 <= py - gy < row
                        && cv[(py - gy) * gw + (px - gx)] != 0 {
                        c.spec_multiply(cv[(py - gy) * gw + (px - gx)])
                    } else {
                        f0.at(px, py)
                    },
            decreases gh - row,
        {
            let py = gy as u128 + row as u128;
            if py < fh {
                let mut col: usize = 0;
                while col < gw
                    invariant
                        self.wf(),
                        self@.width == f0.width,
                        self@.height == f0.height,
                        self@.pixels.len() == f0.pixels.len(),
                        f0.pixels.len() == f0.width * f0.height,
                        f0.pixels.len() <= u32::MAX / 4,
                        fw == f0.width,
                        fh == f0.height,
                        cv == coverage@,
                        clen == cv.len(),
                        gw * gh <= cv.len(),
                        0 <= row < gh,
                        py == gy + row,
                        py < fh,
                        0 <= col <= gw,
                        forall|px: int, py: int|
                            f0.inside(px, py) ==> #[trigger] self@.at(px, py) == if 0 <= px - gx < gw && (0 <= py - gy < row
                                || (py - gy == row && px - gx < col)) && cv[(py - gy) * gw + (px - gx)] != 0 {
                                c.spec_multiply(cv[(py - gy) * gw + (px - gx)])
                            } else {
                                f0.at(px, py)
                            },
                    decreases gw - col,
                {
                    let px = gx as u128 + col as u128;
                    proof {
                        lemma_index_in_bounds(gw as int, gh as int, col as int, row as int);
                    }
                    let cov = coverage[row * gw + col];
                    if px < fw && cov != 0 {
                        proof {
                            lemma_index_in_bounds(fw as int, fh as int, px as int, py as int);
                        }
                        let ghost before = self@;
                        self.set((py * fw + px) as usize, c.multiply(cov));
                        proof {
                            assert forall|qx: int, qy: int| f0.inside(qx, qy) implies #[trigger] self@.at(qx, qy) == if 0 <= qx - gx < gw && (0 <= qy - gy < row
                                || (qy - gy == row && qx - gx < col + 1)) && cv[(qy - gy) * gw + (qx - gx)] != 0 {
                                c.spec_multiply(cv[(qy - gy) * gw + (qx - gx)])
                            } else {
                                f0.at(qx, qy)
                            } by {
                                lemma_index_in_bounds(fw as int, fh as int, qx, qy);
                                assert(self@.pixels[qy * fw + qx] == self@.at(qx, qy));
                                assert(before.pixels[qy * fw + qx] == before.at(qx, qy));
                                if qy * fw + qx == py * fw + px {
                                    lemma_index_unique(fw as int, qx, qy, px as int, py as int);
                                }
                            }
                        }
                    }
                    col += 1;
                }
            }
            row += 1;
        }
        proof {
            let g = |px: int, py: int|
                if 0 <= px - gx < gw && 0 <= py - gy < gh && cv[(py - gy) * gw + (px - gx)] != 0 {
                    c.spec_multiply(cv[(py - gy) * gw + (px - gx)])
                } else {
                    f0.at(px, py)
                };
            assert forall|px: int, py: int| f0.inside(px, py) implies #[trigger] self@.at(px, py) == g(px, py) by {
            }
            lemma_pixel_map(self@, f0, g);
        }
    }
}


impl Frame {
    /// A copy of the frame, with a buffer of its own.
    pub fn duplicate(&self) -> (f: Frame)
        requires
            self.wf(),
        ensures
            f.wf(),
            f@ == self@,
    {
        let mut buf: Vec<u8> = Vec::with_capacity(self.buf.len());
        let mut i: usize = 0;
        while i < self.buf.len()
            invariant
                0 <= i <= self.buf@.len(),
                buf@ == self.buf@.subrange(0, i as int),
            decreases self.buf.len() - i,
        {
            buf.push(self.buf[i]);
            i += 1;
            assert(buf@ =~= self.buf@.subrange(0, i as int));
        }
        assert(buf@ =~= self.buf@);
        Frame { buf, width: self.width, height: self.height }
    }
}

} // verus!
