//! 8-bit colors in straight (`ColorU8`) and premultiplied
//! (`PremultipliedColorU8`) alpha, and the conversions between them.

use vstd::prelude::*;

verus! {

/// One channel multiplied by alpha, rounded to nearest: `(c·a + 127) / 255`.
pub open spec fn premul_channel(c: u8, a: u8) -> u8 {
    ((c as int * a as int + 127) / 255) as u8
}

/// One channel divided back by alpha, rounded to nearest and clamped to 255;
/// zero when alpha is zero.
pub open spec fn demul_channel(c: u8, a: u8) -> u8 {
    if a == 0 {
        0
    } else {
        let q = (c as int * 255 + a as int / 2) / a as int;
        if q > 255 { 255 } else { q as u8 }
    }
}

/// The premultiplied image of a straight color `(r, g, b, a)`.
pub open spec fn premultiply_spec(c: (u8, u8, u8, u8)) -> (u8, u8, u8, u8) {
    (premul_channel(c.0, c.3), premul_channel(c.1, c.3), premul_channel(c.2, c.3), c.3)
}

/// The straight color restored from a premultiplied `(r, g, b, a)`; the
/// transparent black for alpha zero.
pub open spec fn demultiply_spec(p: (u8, u8, u8, u8)) -> (u8, u8, u8, u8) {
    (demul_channel(p.0, p.3), demul_channel(p.1, p.3), demul_channel(p.2, p.3), p.3)
}

/// A premultiplied color is valid when no color channel exceeds alpha.
pub open spec fn is_valid_premultiplied(p: (u8, u8, u8, u8)) -> bool {
    p.0 <= p.3 && p.1 <= p.3 && p.2 <= p.3
}

/// An 8-bit straight (non-premultiplied) RGBA color.
#[derive(Copy, Clone, Debug, PartialEq, Eq, Structural)]
pub struct ColorU8 {
    r: u8,
    g: u8,
    b: u8,
    a: u8,
}

impl View for ColorU8 {
    type V = (u8, u8, u8, u8);

    closed spec fn view(&self) -> (u8, u8, u8, u8) {
        (self.r, self.g, self.b, self.a)
    }
}

impl ColorU8 {
    /// A color from its four components.
    pub fn from_rgba(r: u8, g: u8, b: u8, a: u8) -> (c: ColorU8)
        ensures
            c@ == (r, g, b, a),
    {
        ColorU8 { r, g, b, a }
    }

    pub fn red(&self) -> (v: u8)
        ensures
            v == self@.0,
    {
        self.r
    }

    pub fn green(&self) -> (v: u8)
        ensures
            v == self@.1,
    {
        self.g
    }

    pub fn blue(&self) -> (v: u8)
        ensures
            v == self@.2,
    {
        self.b
    }

    pub fn alpha(&self) -> (v: u8)
        ensures
            v == self@.3,
    {
        self.a
    }

    /// Premultiplies the color: each color channel is multiplied by alpha and
    /// rounded to nearest; alpha is kept.
    pub fn premultiply(self) -> (p: PremultipliedColorU8)
        ensures
            p@ == premultiply_spec(self@),
            is_valid_premultiplied(p@),
    {
        let a = self.a;
        proof {
            lemma_premul_channel_le_alpha(self.r, a);
            lemma_premul_channel_le_alpha(self.g, a);
            lemma_premul_channel_le_alpha(self.b, a);
        }
        PremultipliedColorU8 {
            r: premul(self.r, a),
            g: premul(self.g, a),
            b: premul(self.b, a),
            a,
        }
    }
}

/// Executable form of [`premul_channel`].
fn premul(c: u8, a: u8) -> (v: u8)
    ensures
        v == premul_channel(c, a),
{
    assert(c as int * a as int <= 255 * 255) by (nonlinear_arith)
        requires
            c <= 255,
            a <= 255,
    ;
    let prod: u32 = c as u32 * a as u32;
    let q: u32 = (prod + 127) / 255;
    assert(q <= 255) by (nonlinear_arith)
        requires
            q == (prod + 127) / 255,
            prod <= 255 * 255,
    ;
    q as u8
}

/// Executable form of [`demul_channel`] for a non-zero alpha.
fn demul(c: u8, a: u8) -> (v: u8)
    requires
        a > 0,
    ensures
        v == demul_channel(c, a),
{
    let q: u32 = (c as u32 * 255 + a as u32 / 2) / a as u32;
    if q > 255 {
        255
    } else {
        q as u8
    }
}

/// An 8-bit premultiplied RGBA color — the pixel storage format.
#[derive(Copy, Clone, Debug, PartialEq, Eq, Structural)]
pub struct PremultipliedColorU8 {
    r: u8,
    g: u8,
    b: u8,
    a: u8,
}

impl View for PremultipliedColorU8 {
    type V = (u8, u8, u8, u8);

    closed spec fn view(&self) -> (u8, u8, u8, u8) {
        (self.r, self.g, self.b, self.a)
    }
}

impl PremultipliedColorU8 {
    /// A value from its components, without checking that `rgb <= a`.
    pub fn from_rgba_unchecked(r: u8, g: u8, b: u8, a: u8) -> (p: PremultipliedColorU8)
        ensures
            p@ == (r, g, b, a),
    {
        PremultipliedColorU8 { r, g, b, a }
    }

    /// The fully transparent color.
    pub fn transparent() -> (p: PremultipliedColorU8)
        ensures
            p@ == (0u8, 0u8, 0u8, 0u8),
    {
        PremultipliedColorU8 { r: 0, g: 0, b: 0, a: 0 }
    }

    pub fn red(&self) -> (v: u8)
        ensures
            v == self@.0,
    {
        self.r
    }

    pub fn green(&self) -> (v: u8)
        ensures
            v == self@.1,
    {
        self.g
    }

    pub fn blue(&self) -> (v: u8)
        ensures
            v == self@.2,
    {
        self.b
    }

    pub fn alpha(&self) -> (v: u8)
        ensures
            v == self@.3,
    {
        self.a
    }

    /// Restores the straight color: each color channel is divided by alpha
    /// (rounded to nearest, clamped to 255); alpha zero gives transparent black.
    pub fn demultiply(&self) -> (c: ColorU8)
        ensures
            c@ == demultiply_spec(self@),
    {
        if self.a == 0 {
            ColorU8 { r: 0, g: 0, b: 0, a: 0 }
        } else {
            let a = self.a;
            ColorU8 { r: demul(self.r, a), g: demul(self.g, a), b: demul(self.b, a), a }
        }
    }
}

// ----- Laws --------------------------------------------------------------

/// A premultiplied channel never exceeds alpha.
pub proof fn lemma_premul_channel_le_alpha(c: u8, a: u8)
    ensures
        premul_channel(c, a) <= a,
{
    let p = c as int * a as int;
    assert(p <= 255 * a as int) by (nonlinear_arith)
        requires
            p == c as int * a as int,
            c <= 255,
            a >= 0,
    ;
    assert((p + 127) / 255 <= a as int) by (nonlinear_arith)
        requires
            p <= 255 * a as int,
            p >= 0,
    ;
}

/// Premultiplying an opaque color changes nothing, and premultiplying by a
/// zero alpha gives transparent black.
pub proof fn lemma_premultiply_opaque_and_clear(c: (u8, u8, u8, u8))
    ensures
        c.3 == 255 ==> premultiply_spec(c) == c,
        c.3 == 0 ==> premultiply_spec(c) == (0u8, 0u8, 0u8, 0u8),
{
    if c.3 == 255 {
        lemma_premul_by_255(c.0);
        lemma_premul_by_255(c.1);
        lemma_premul_by_255(c.2);
    }
}

proof fn lemma_premul_by_255(c: u8)
    ensures
        premul_channel(c, 255) == c,
{
    assert((c as int * 255 + 127) / 255 == c as int) by (nonlinear_arith)
        requires
            0 <= c <= 255,
    ;
}

proof fn lemma_demul_by_255(c: u8)
    ensures
        demul_channel(c, 255) == c,
{
    assert((c as int * 255 + 127) / 255 == c as int) by (nonlinear_arith)
        requires
            0 <= c <= 255,
    ;
}

/// Demultiplying an opaque color changes nothing.
pub proof fn lemma_demultiply_opaque(p: (u8, u8, u8, u8))
    requires
        p.3 == 255,
    ensures
        demultiply_spec(p) == p,
{
    lemma_demul_by_255(p.0);
    lemma_demul_by_255(p.1);
    lemma_demul_by_255(p.2);
}

proof fn lemma_premul_demul_channel(p: u8, a: u8)
    requires
        a > 0,
        p <= a,
    ensures
        premul_channel(demul_channel(p, a), a) == p,
{
    let ai = a as int;
    let pi = p as int;
    let q = (pi * 255 + ai / 2) / ai;
    let r = (pi * 255 + ai / 2) % ai;
    assert(pi * 255 + ai / 2 == q * ai + r && 0 <= r < ai) by (nonlinear_arith)
        requires
            ai > 0,
            q == (pi * 255 + ai / 2) / ai,
            r == (pi * 255 + ai / 2) % ai,
    ;
    assert(q <= 255) by (nonlinear_arith)
        requires
            pi * 255 + ai / 2 == q * ai + r,
            0 <= r,
            pi <= ai,
            ai > 0,
            ai <= 255,
    ;
    assert(q >= 0) by (nonlinear_arith)
        requires
            pi * 255 + ai / 2 == q * ai + r,
            r < ai,
            pi >= 0,
            ai > 0,
    ;
    // q·a = 255·p + a/2 − r, so q·a + 127 lies in [255·p, 255·p + 254].
    assert((q * ai + 127) / 255 == pi) by (nonlinear_arith)
        requires
            pi * 255 + ai / 2 == q * ai + r,
            0 <= r < ai,
            ai <= 255,
            ai > 0,
    ;
}

/// Demultiplying a valid premultiplied color and premultiplying the result
/// gives back the same color: the straight form loses nothing.
pub proof fn lemma_premultiply_demultiply_roundtrip(p: (u8, u8, u8, u8))
    requires
        is_valid_premultiplied(p),
    ensures
        premultiply_spec(demultiply_spec(p)) == p,
{
    if p.3 == 0 {
    } else {
        lemma_premul_demul_channel(p.0, p.3);
        lemma_premul_demul_channel(p.1, p.3);
        lemma_premul_demul_channel(p.2, p.3);
    }
}

proof fn lemma_demul_premul_channel(c: u8, a: u8)
    requires
        a > 0,
    ensures
        2 * (a as int) * (demul_channel(premul_channel(c, a), a) as int - c as int) <= 255 + a as int,
        2 * (a as int) * (c as int - demul_channel(premul_channel(c, a), a) as int) <= 255 + a as int,
{
    let ai = a as int;
    let ci = c as int;
    let p = (ci * ai + 127) / 255;
    let s = (ci * ai + 127) % 255;
    assert(ci * ai + 127 == p * 255 + s && 0 <= s < 255) by (nonlinear_arith)
        requires
            p == (ci * ai + 127) / 255,
            s == (ci * ai + 127) % 255,
    ;
    assert(0 <= p <= 255) by (nonlinear_arith)
        requires
            ci * ai + 127 == p * 255 + s,
            0 <= s < 255,
            0 <= ci <= 255,
            0 < ai <= 255,
    ;
    let q = (p * 255 + ai / 2) / ai;
    let t = (p * 255 + ai / 2) % ai;
    assert(p * 255 + ai / 2 == q * ai + t && 0 <= t < ai) by (nonlinear_arith)
        requires
            ai > 0,
            q == (p * 255 + ai / 2) / ai,
            t == (p * 255 + ai / 2) % ai,
    ;
    let d = demul_channel(premul_channel(c, a), a) as int;
    assert(d == if q > 255 { 255 } else { q });
    // q·a = c·a + 127 − s + a/2 − t
    assert(2 * ai * (q - ci) <= 255 + ai) by (nonlinear_arith)
        requires
            ci * ai + 127 == p * 255 + s,
            p * 255 + ai / 2 == q * ai + t,
            0 <= s < 255,
            0 <= t < ai,
            ai > 0,
    ;
    assert(2 * ai * (ci - q) <= 255 + ai) by (nonlinear_arith)
        requires
            ci * ai + 127 == p * 255 + s,
            p * 255 + ai / 2 == q * ai + t,
            0 <= s < 255,
            0 <= t < ai,
            ai > 0,
    ;
    assert(2 * ai * (d - ci) <= 255 + ai) by (nonlinear_arith)
        requires
            2 * ai * (q - ci) <= 255 + ai,
            d == (if q > 255 { 255 } else { q }),
            ci <= 255,
            ai > 0,
    ;
    assert(2 * ai * (ci - d) <= 255 + ai) by (nonlinear_arith)
        requires
            2 * ai * (ci - q) <= 255 + ai,
            d == (if q > 255 { 255 } else { q }),
            ci <= 255,
            ai > 0,
    ;
}

/// Premultiplying and then demultiplying a straight color with alpha `a > 0`
/// moves each color channel by at most `(255 + a) / (2a)`: two steps at alpha
/// 128, none at alpha 255. Alpha is kept exactly.
pub proof fn lemma_demultiply_premultiply_error(c: (u8, u8, u8, u8))
    requires
        c.3 > 0,
    ensures
        demultiply_spec(premultiply_spec(c)).3 == c.3,
        2 * (c.3 as int) * (demultiply_spec(premultiply_spec(c)).0 as int - c.0 as int) <= 255 + c.3 as int,
        2 * (c.3 as int) * (c.0 as int - demultiply_spec(premultiply_spec(c)).0 as int) <= 255 + c.3 as int,
        2 * (c.3 as int) * (demultiply_spec(premultiply_spec(c)).1 as int - c.1 as int) <= 255 + c.3 as int,
        2 * (c.3 as int) * (c.1 as int - demultiply_spec(premultiply_spec(c)).1 as int) <= 255 + c.3 as int,
        2 * (c.3 as int) * (demultiply_spec(premultiply_spec(c)).2 as int - c.2 as int) <= 255 + c.3 as int,
        2 * (c.3 as int) * (c.2 as int - demultiply_spec(premultiply_spec(c)).2 as int) <= 255 + c.3 as int,
{
    lemma_demul_premul_channel(c.0, c.3);
    lemma_demul_premul_channel(c.1, c.3);
    lemma_demul_premul_channel(c.2, c.3);
}

} // verus!
