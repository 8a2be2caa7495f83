use vstd::prelude::*;
use crate::frame::{Color, Frame, FrameView, fits, lemma_index_in_bounds};

verus! {

/// Denominator of the source positions along an axis of `dn` destination
/// pixels: destination pixel `t` maps to source position
/// `t * (sn - 1) / axis_den(dn)`, so that both end pixels line up.
pub open spec fn axis_den(dn: int) -> int {
    if dn > 1 {
        dn - 1
    } else {
        1
    }
}

/// The source pixel at or before the position of destination pixel `t`.
pub open spec fn axis_lo(t: int, sn: int, dn: int) -> int {
    (t * (sn - 1)) / axis_den(dn)
}

/// The source pixel after it, clamped to the last one.
pub open spec fn axis_hi(t: int, sn: int, dn: int) -> int {
    if axis_lo(t, sn, dn) + 1 < sn {
        axis_lo(t, sn, dn) + 1
    } else {
        sn - 1
    }
}

/// The fractional part of the position, in units of `axis_den(dn)`.
pub open spec fn axis_frac(t: int, sn: int, dn: int) -> int {
    (t * (sn - 1)) % axis_den(dn)
}

/// Channel `k` of `c`: blue, green, red, alpha for `k` from 0 to 3.
pub open spec fn channel(c: Color, k: int) -> int {
    if k == 0 {
        c.b as int
    } else if k == 1 {
        c.g as int
    } else if k == 2 {
        c.r as int
    } else {
        c.a as int
    }
}

/// The weighted sum of four corner values, with weights `fx / ex` across and
/// `fy / ey` down.
pub open spec fn weighted(c00: int, c10: int, c01: int, c11: int, fx: int, ex: int, fy: int, ey: int) -> int {
    c00 * (ex - fx) * (ey - fy) + c10 * fx * (ey - fy) + c01 * (ex - fx) * fy + c11 * fx * fy
}

/// The bilinear interpolation of four corner values, rounded to the nearest
/// integer, halves up.
pub open spec fn blend(c00: int, c10: int, c01: int, c11: int, fx: int, ex: int, fy: int, ey: int) -> int {
    (2 * weighted(c00, c10, c01, c11, fx, ex, fy, ey) + ex * ey) / (2 * ex * ey)
}

/// Channel `k` of pixel `(x, y)` of `s` resampled to `dw` by `dh` pixels.
pub open spec fn resampled_channel(s: FrameView, dw: int, dh: int, x: int, y: int, k: int) -> int {
    let (sw, sh) = (s.width as int, s.height as int);
    let (x0, x1) = (axis_lo(x, sw, dw), axis_hi(x, sw, dw));
    let (y0, y1) = (axis_lo(y, sh, dh), axis_hi(y, sh, dh));
    blend(
        channel(s.at(x0, y0), k),
        channel(s.at(x1, y0), k),
        channel(s.at(x0, y1), k),
        channel(s.at(x1, y1), k),
        axis_frac(x, sw, dw),
        axis_den(dw),
        axis_frac(y, sh, dh),
        axis_den(dh),
    )
}

/// Pixel `(x, y)` of `s` resampled to `dw` by `dh` pixels.
pub open spec fn resampled_pixel(s: FrameView, dw: int, dh: int, x: int, y: int) -> Color {
    Color {
        b: resampled_channel(s, dw, dh, x, y, 0) as u8,
        g: resampled_channel(s, dw, dh, x, y, 1) as u8,
        r: resampled_channel(s, dw, dh, x, y, 2) as u8,
        a: resampled_channel(s, dw, dh, x, y, 3) as u8,
    }
}

/// `s` resampled bilinearly to `dw` by `dh` pixels.
pub open spec fn resampled(s: FrameView, dw: int, dh: int) -> FrameView {
    FrameView {
        width: dw as nat,
        height: dh as nat,
        pixels: Seq::new((dw * dh) as nat, |i: int| resampled_pixel(s, dw, dh, i % dw, i / dw)),
    }
}

proof fn lemma_weights_sum(fx: int, ex: int, fy: int, ey: int)
    ensures
        (ex - fx) * (ey - fy) + fx * (ey - fy) + (ex - fx) * fy + fx * fy == ex * ey,
{
    assert((ex - fx) * (ey - fy) + fx * (ey - fy) + (ex - fx) * fy + fx * fy == ex * ey) by (nonlinear_arith);
}

proof fn lemma_weighted_bound(c00: int, c10: int, c01: int, c11: int, fx: int, ex: int, fy: int, ey: int)
    requires
        0 <= c00 <= 255,
        0 <= c10 <= 255,
        0 <= c01 <= 255,
        0 <= c11 <= 255,
        0 <= fx < ex,
        0 <= fy < ey,
    ensures
        0 <= weighted(c00, c10, c01, c11, fx, ex, fy, ey) <= 255 * (ex * ey),
        0 <= blend(c00, c10, c01, c11, fx, ex, fy, ey) <= 255,
{
    let (a, b, c, d) = ((ex - fx) * (ey - fy), fx * (ey - fy), (ex - fx) * fy, fx * fy);
    assert(a >= 0 && b >= 0 && c >= 0 && d >= 0) by (nonlinear_arith)
        requires
            0 <= fx < ex,
            0 <= fy < ey,
            a == (ex - fx) * (ey - fy),
            b == fx * (ey - fy),
            c == (ex - fx) * fy,
            d == fx * fy,
    ;
    lemma_weights_sum(fx, ex, fy, ey);
    let w = weighted(c00, c10, c01, c11, fx, ex, fy, ey);
    assert(w == c00 * a + c10 * b + c01 * c + c11 * d) by (nonlinear_arith)
        requires
            w == c00 * (ex - fx) * (ey - fy) + c10 * fx * (ey - fy) + c01 * (ex - fx) * fy + c11 * fx * fy,
            a == (ex - fx) * (ey - fy),
            b == fx * (ey - fy),
            c == (ex - fx) * fy,
            d == fx * fy,
    ;
    assert(0 <= w <= 255 * (a + b + c + d)) by (nonlinear_arith)
        requires
            w == c00 * a + c10 * b + c01 * c + c11 * d,
            a >= 0,
            b >= 0,
            c >= 0,
            d >= 0,
            0 <= c00 <= 255,
            0 <= c10 <= 255,
            0 <= c01 <= 255,
            0 <= c11 <= 255,
    ;
    let e = ex * ey;
    assert(e > 0) by (nonlinear_arith)
        requires
            ex > 0,
            ey > 0,
            e == ex * ey,
    ;
    assert(2 * ex * ey == 2 * e) by (nonlinear_arith)
        requires
            e == ex * ey,
    ;
    let q = (2 * w + e) / (2 * e);
    assert(0 <= q <= 255) by (nonlinear_arith)
        requires
            q == (2 * w + e) / (2 * e),
            0 <= w <= 255 * e,
            e > 0,
    ;
}

/// The blend of four equal values is that value.
proof fn lemma_blend_uniform(v: int, fx: int, ex: int, fy: int, ey: int)
    requires
        0 <= fx < ex,
        0 <= fy < ey,
    ensures
        blend(v, v, v, v, fx, ex, fy, ey) == v,
{
    lemma_weights_sum(fx, ex, fy, ey);
    let e = ex * ey;
    let (a, b, c, d) = ((ex - fx) * (ey - fy), fx * (ey - fy), (ex - fx) * fy, fx * fy);
    let w = weighted(v, v, v, v, fx, ex, fy, ey);
    assert(w == v * a + v * b + v * c + v * d) by (nonlinear_arith)
        requires
            w == v * (ex - fx) * (ey - fy) + v * fx * (ey - fy) + v * (ex - fx) * fy + v * fx * fy,
            a == (ex - fx) * (ey - fy),
            b == fx * (ey - fy),
            c == (ex - fx) * fy,
            d == fx * fy,
    ;
    assert(v * a + v * b + v * c + v * d == v * (a + b + c + d)) by (nonlinear_arith);
    assert(e > 0) by (nonlinear_arith)
        requires
            ex > 0,
            ey > 0,
            e == ex * ey,
    ;
    assert(2 * ex * ey == 2 * e) by (nonlinear_arith)
        requires
            e == ex * ey,
    ;
    assert(2 * (v * e) + e == v * (2 * e) + e) by (nonlinear_arith);
    vstd::arithmetic::div_mod::lemma_fundamental_div_mod_converse(2 * (v * e) + e, 2 * e, v, e);
}

/// One channel of the blend, computed exactly.
fn blend_channel(c00: u8, c10: u8, c01: u8, c11: u8, fx: u64, ex: u64, fy: u64, ey: u64) -> (r: u8)
    requires
        fx < ex <= u32::MAX,
        fy < ey <= u32::MAX,
    ensures
        r as int == blend(c00 as int, c10 as int, c01 as int, c11 as int, fx as int, ex as int, fy as int, ey as int),
{
    proof {
        lemma_weighted_bound(c00 as int, c10 as int, c01 as int, c11 as int, fx as int, ex as int, fy as int, ey as int);
        assert((ex - fx) * (ey - fy) <= ex * ey && fx * (ey - fy) <= ex * ey && (ex - fx) * fy <= ex * ey && fx * fy <= ex * ey)
            by (nonlinear_arith)
            requires
                fx < ex,
                fy < ey,
        ;
        assert(ex * ey <= 0xffff_ffff_ffff_ffff) by (nonlinear_arith)
            requires
                ex <= u32::MAX,
                ey <= u32::MAX,
        ;
        assert(c00 * ((ex - fx) * (ey - fy)) <= 255 * 0xffff_ffff_ffff_ffffu128) by (nonlinear_arith)
            requires c00 <= 255, (ex - fx) * (ey - fy) <= 0xffff_ffff_ffff_ffffu128, (ex - fx) * (ey - fy) >= 0;
        assert(c10 * (fx * (ey - fy)) <= 255 * 0xffff_ffff_ffff_ffffu128) by (nonlinear_arith)
            requires c10 <= 255, fx * (ey - fy) <= 0xffff_ffff_ffff_ffffu128, fx * (ey - fy) >= 0;
        assert(c01 * ((ex - fx) * fy) <= 255 * 0xffff_ffff_ffff_ffffu128) by (nonlinear_arith)
            requires c01 <= 255, (ex - fx) * fy <= 0xffff_ffff_ffff_ffffu128, (ex - fx) * fy >= 0;
        assert(c11 * (fx * fy) <= 255 * 0xffff_ffff_ffff_ffffu128) by (nonlinear_arith)
            requires c11 <= 255, fx * fy <= 0xffff_ffff_ffff_ffffu128, fx * fy >= 0;
        assert(weighted(c00 as int, c10 as int, c01 as int, c11 as int, fx as int, ex as int, fy as int, ey as int)
            == c00 * ((ex - fx) * (ey - fy)) + c10 * (fx * (ey - fy)) + c01 * ((ex - fx) * fy) + c11 * (fx * fy))
            by (nonlinear_arith);
        assert(2 * ex * ey == 2 * (ex * ey)) by (nonlinear_arith);
        assert(ex * ey > 0) by (nonlinear_arith)
            requires
                ex > 0,
                ey > 0,
        ;
    }
    let (fx, ex, fy, ey) = (fx as u128, ex as u128, fy as u128, ey as u128);
    let w00: u128 = (ex - fx) * (ey - fy);
    let w10: u128 = fx * (ey - fy);
    let w01: u128 = (ex - fx) * fy;
    let w11: u128 = fx * fy;
    let num: u128 = c00 as u128 * w00 + c10 as u128 * w10 + c01 as u128 * w01 + c11 as u128 * w11;
    let e: u128 = ex * ey;
    ((2 * num + e) / (2 * e)) as u8
}


proof fn lemma_axis(t: int, sn: int, dn: int)
    requires
        0 <= t < dn,
        1 <= sn,
    ensures
        0 <= axis_lo(t, sn, dn) < sn,
        0 <= axis_hi(t, sn, dn) < sn,
        0 <= axis_frac(t, sn, dn) < axis_den(dn),
{
    let den = axis_den(dn);
    let n = t * (sn - 1);
    assert(0 <= n <= den * (sn - 1)) by (nonlinear_arith)
        requires
            n == t * (sn - 1),
            0 <= t <= den,
            sn >= 1,
    ;
    vstd::arithmetic::div_mod::lemma_fundamental_div_mod(n, den);
    vstd::arithmetic::div_mod::lemma_mod_bound(n, den);
    let lo = n / den;
    assert(0 <= lo < sn) by (nonlinear_arith)
        requires
            n == den * lo + n % den,
            0 <= n % den < den,
            0 <= n <= den * (sn - 1),
            den > 0,
    ;
}

/// For each destination pixel along an axis: the two source pixels that
/// bracket its position, and the fractional part of the position.
fn axis_map(sn: u64, dn: u64) -> (r: (Vec<usize>, Vec<usize>, Vec<u64>))
    requires
        1 <= sn <= u32::MAX,
        1 <= dn <= u32::MAX,
    ensures
        r.0@.len() == dn,
        r.1@.len() == dn,
        r.2@.len() == dn,
        forall|t: int| 0 <= t < dn ==> #[trigger] r.0@[t] == axis_lo(t, sn as int, dn as int),
        forall|t: int| 0 <= t < dn ==> #[trigger] r.1@[t] == axis_hi(t, sn as int, dn as int),
        forall|t: int| 0 <= t < dn ==> #[trigger] r.2@[t] == axis_frac(t, sn as int, dn as int),
{
    let den: u64 = if dn > 1 { dn - 1 } else { 1 };
    let mut lo: Vec<usize> = Vec::with_capacity(dn as usize);
    let mut hi: Vec<usize> = Vec::with_capacity(dn as usize);
    let mut fr: Vec<u64> = Vec::with_capacity(dn as usize);
    let mut t: u64 = 0;
    while t < dn
        invariant
            1 <= sn <= u32::MAX,
            1 <= dn <= u32::MAX,
            den == axis_den(dn as int),
            0 <= t <= dn,
            lo@.len() == t,
            hi@.len() == t,
            fr@.len() == t,
            forall|k: int| 0 <= k < t ==> #[trigger] lo@[k] == axis_lo(k, sn as int, dn as int),
            forall|k: int| 0 <= k < t ==> #[trigger] hi@[k] == axis_hi(k, sn as int, dn as int),
            forall|k: int| 0 <= k < t ==> #[trigger] fr@[k] == axis_frac(k, sn as int, dn as int),
        decreases dn - t,
    {
        proof {
            lemma_axis(t as int, sn as int, dn as int);
            assert(t * (sn - 1) <= u32::MAX * u32::MAX) by (nonlinear_arith)
                requires
                    t <= u32::MAX,
                    sn - 1 <= u32::MAX,
            ;
        }
        let n: u64 = t * (sn - 1);
        let l: u64 = n / den;
        let h: u64 = if l + 1 < sn { l + 1 } else { sn - 1 };
        lo.push(l as usize);
        hi.push(h as usize);
        fr.push(n % den);
        t += 1;
    }
    (lo, hi, fr)
}

impl Frame {
    /// The frame resampled bilinearly to `dst_width` by `dst_height` pixels:
    /// each channel of each destination pixel interpolates the four source
    /// pixels round its position, rounded to the nearest value; positions
    /// past the last source pixel clamp to it.
    pub fn scale_bilinear(&self, dst_width: u32, dst_height: u32) -> (r: Frame)
        requires
            self.wf(),
            self@.width >= 1,
            self@.height >= 1,
            dst_width >= 1,
            dst_height >= 1,
            fits(dst_width as int, dst_height as int),
        ensures
            r.wf(),
            r@ == resampled(self@, dst_width as int, dst_height as int),
    {
        proof {
            self.lemma_wf_len();
        }
        let ghost s = self@;
        let sw = self.width() as u64;
        let sh = self.height() as u64;
        let dw = dst_width as u64;
        let dh = dst_height as u64;
        let ex: u64 = if dw > 1 { dw - 1 } else { 1 };
        let ey: u64 = if dh > 1 { dh - 1 } else { 1 };
        let (x_lo, x_hi, x_fr) = axis_map(sw, dw);
        let (y_lo, y_hi, y_fr) = axis_map(sh, dh);
        let mut dst = Frame::new(dst_width, dst_height);
        proof {
            dst.lemma_wf_len();
        }
        let n = (dw * dh) as usize;
        let mut i: usize = 0;
        while i < n
            invariant
                self.wf(),
                s == self@,
                s.pixels.len() == s.width * s.height,
                s.pixels.len() <= u32::MAX / 4,
                sw == s.width,
                sh == s.height,
                1 <= sw <= u32::MAX,
                1 <= sh <= u32::MAX,
                dw == dst_width,
                dh == dst_height,
                1 <= dw <= u32::MAX,
                1 <= dh <= u32::MAX,
                ex == axis_den(dw as int),
                ey == axis_den(dh as int),
                dst.wf(),
                dst@.width == dw,
                dst@.height == dh,
                dst@.pixels.len() == n,
                n == dw * dh,
                x_lo@.len() == dw,
                x_hi@.len() == dw,
                x_fr@.len() == dw,
                y_lo@.len() == dh,
                y_hi@.len() == dh,
                y_fr@.len() == dh,
                forall|t: int| 0 <= t < dw ==> #[trigger] x_lo@[t] == axis_lo(t, sw as int, dw as int),
                forall|t: int| 0 <= t < dw ==> #[trigger] x_hi@[t] == axis_hi(t, sw as int, dw as int),
                forall|t: int| 0 <= t < dw ==> #[trigger] x_fr@[t] == axis_frac(t, sw as int, dw as int),
                forall|t: int| 0 <= t < dh ==> #[trigger] y_lo@[t] == axis_lo(t, sh as int, dh as int),
                forall|t: int| 0 <= t < dh ==> #[trigger] y_hi@[t] == axis_hi(t, sh as int, dh as int),
                forall|t: int| 0 <= t < dh ==> #[trigger] y_fr@[t] == axis_frac(t, sh as int, dh as int),
                0 <= i <= n,
                forall|k: int|
                    0 <= k < i ==> #[trigger] dst@.pixels[k] == resampled_pixel(s, dw as int, dh as int, k % (dw as int), k / (dw as int)),
            decreases n - i,
        {
            let x = i % (dw as usize);
            let y = i / (dw as usize);
            proof {
                vstd::arithmetic::div_mod::lemma_fundamental_div_mod(i as int, dw as int);
                assert(y < dh) by (nonlinear_arith)
                    requires
                        i == dw * y + x,
                        0 <= x,
                        i < dw * dh,
                        dw > 0,
                ;
                lemma_axis(x as int, sw as int, dw as int);
                lemma_axis(y as int, sh as int, dh as int);
                lemma_index_in_bounds(sw as int, sh as int, x_lo@[x as int] as int, y_lo@[y as int] as int);
                lemma_index_in_bounds(sw as int, sh as int, x_hi@[x as int] as int, y_lo@[y as int] as int);
                lemma_index_in_bounds(sw as int, sh as int, x_lo@[x as int] as int, y_hi@[y as int] as int);
                lemma_index_in_bounds(sw as int, sh as int, x_hi@[x as int] as int, y_hi@[y as int] as int);
            }
            let (x0, x1, fx) = (x_lo[x], x_hi[x], x_fr[x]);
            let (y0, y1, fy) = (y_lo[y], y_hi[y], y_fr[y]);
            let w = sw as usize;
            let p00 = self.get(y0 * w + x0);
            let p10 = self.get(y0 * w + x1);
            let p01 = self.get(y1 * w + x0);
            let p11 = self.get(y1 * w + x1);
            let c = Color {
                b: blend_channel(p00.b, p10.b, p01.b, p11.b, fx, ex, fy, ey),
                g: blend_channel(p00.g, p10.g, p01.g, p11.g, fx, ex, fy, ey),
                r: blend_channel(p00.r, p10.r, p01.r, p11.r, fx, ex, fy, ey),
                a: blend_channel(p00.a, p10.a, p01.a, p11.a, fx, ex, fy, ey),
            };
            dst.set(i, c);
            i += 1;
        }
        assert(dst@.pixels =~= resampled(s, dw as int, dh as int).pixels);
        dst
    }
}

/// Resampling a frame of one colour, to any size, gives a frame of that
/// same colour.
pub proof fn law_resample_uniform(s: FrameView, dw: int, dh: int, c: Color)
    requires
        s.width >= 1,
        s.height >= 1,
        s.pixels.len() == s.width * s.height,
        forall|i: int| 0 <= i < s.pixels.len() ==> s.pixels[i] == c,
        dw >= 1,
        dh >= 1,
    ensures
        forall|i: int| 0 <= i < dw * dh ==> #[trigger] resampled(s, dw, dh).pixels[i] == c,
{
    assert forall|i: int| 0 <= i < dw * dh implies #[trigger] resampled(s, dw, dh).pixels[i] == c by {
        let x = i % dw;
        let y = i / dw;
        vstd::arithmetic::div_mod::lemma_fundamental_div_mod(i, dw);
        vstd::arithmetic::div_mod::lemma_mod_bound(i, dw);
        assert(0 <= y < dh) by (nonlinear_arith)
            requires
                i == dw * y + x,
                0 <= x < dw,
                0 <= i < dw * dh,
        ;
        let (sw, sh) = (s.width as int, s.height as int);
        lemma_axis(x, sw, dw);
        lemma_axis(y, sh, dh);
        let (x0, x1) = (axis_lo(x, sw, dw), axis_hi(x, sw, dw));
        let (y0, y1) = (axis_lo(y, sh, dh), axis_hi(y, sh, dh));
        lemma_index_in_bounds(sw, sh, x0, y0);
        lemma_index_in_bounds(sw, sh, x1, y0);
        lemma_index_in_bounds(sw, sh, x0, y1);
        lemma_index_in_bounds(sw, sh, x1, y1);
        assert(s.at(x0, y0) == c && s.at(x1, y0) == c && s.at(x0, y1) == c && s.at(x1, y1) == c);
        let (fx, ex, fy, ey) = (axis_frac(x, sw, dw), axis_den(dw), axis_frac(y, sh, dh), axis_den(dh));
        lemma_blend_uniform(c.b as int, fx, ex, fy, ey);
        lemma_blend_uniform(c.g as int, fx, ex, fy, ey);
        lemma_blend_uniform(c.r as int, fx, ex, fy, ey);
        lemma_blend_uniform(c.a as int, fx, ex, fy, ey);
    }
}

} // verus!
