//! [`Pixmap`] — a premultiplied RGBA pixel buffer, and the conversions
//! between its storage and straight-alpha RGBA rows.

use vstd::prelude::*;

use crate::color::{
    demultiply_spec, is_valid_premultiplied, lemma_premultiply_demultiply_roundtrip,
    premultiply_spec, ColorU8, PremultipliedColorU8,
};

verus! {

/// The four bytes of pixel `k` in an RGBA byte sequence.
pub open spec fn px(s: Seq<u8>, k: int) -> (u8, u8, u8, u8) {
    (s[4 * k], s[4 * k + 1], s[4 * k + 2], s[4 * k + 3])
}

/// Component `i` (0..4) of a color tuple.
pub open spec fn component(c: (u8, u8, u8, u8), i: int) -> u8 {
    if i == 0 {
        c.0
    } else if i == 1 {
        c.1
    } else if i == 2 {
        c.2
    } else {
        c.3
    }
}

/// The byte sequence whose pixel `k` is `f(k)`, for `n` pixels.
pub open spec fn pixels_seq(n: nat, f: spec_fn(int) -> (u8, u8, u8, u8)) -> Seq<u8> {
    Seq::new(4 * n, |i: int| component(f(i / 4), i % 4))
}

/// Straight RGBA of a premultiplied RGBA byte sequence: every whole pixel is
/// demultiplied.
pub open spec fn straight_rgba_spec(data: Seq<u8>) -> Seq<u8> {
    pixels_seq((data.len() / 4) as nat, |k: int| demultiply_spec(px(data, k)))
}

/// Whether every pixel of an RGBA byte sequence is a valid premultiplied color.
pub open spec fn all_valid_premultiplied(data: Seq<u8>) -> bool {
    forall|k: int| 0 <= k < data.len() / 4 ==> is_valid_premultiplied(#[trigger] px(data, k))
}

/// The byte length of a `width × height` RGBA buffer.
pub open spec fn rgba_len(width: u32, height: u32) -> int {
    width as int * height as int * 4
}

/// Bitmap: `width × height` RGBA pixels with premultiplied alpha, stored row
/// by row, four bytes per pixel.
#[derive(Clone)]
pub struct Pixmap {
    width: u32,
    height: u32,
    data: Vec<u8>,
}

impl View for Pixmap {
    type V = (u32, u32, Seq<u8>);

    closed spec fn view(&self) -> (u32, u32, Seq<u8>) {
        (self.width, self.height, self.data@)
    }
}

impl Pixmap {
    /// Well-formed: non-zero dimensions and exactly `width · height · 4` bytes.
    pub open spec fn wf(&self) -> bool {
        &&& self@.0 > 0
        &&& self@.1 > 0
        &&& self@.2.len() == rgba_len(self@.0, self@.1)
        &&& rgba_len(self@.0, self@.1) <= usize::MAX
    }

    /// The premultiplied color of pixel `(x, y)`.
    pub open spec fn pixel_spec(&self, x: int, y: int) -> (u8, u8, u8, u8) {
        px(self@.2, y * self@.0 + x)
    }

    /// Creates a transparent image. `None` for a zero dimension or when the
    /// byte count does not fit in `usize`.
    pub fn new(width: u32, height: u32) -> (r: Option<Pixmap>)
        ensures
            r is None <==> (width == 0 || height == 0 || rgba_len(width, height) > usize::MAX),
            r matches Some(p) ==> p.wf() && p@.0 == width && p@.1 == height && p@.2 == Seq::new(
                rgba_len(width, height) as nat,
                |i: int| 0u8,
            ),
    {
        if width == 0 || height == 0 {
            return None;
        }
        let len = match (width as usize).checked_mul(height as usize) {
            Some(wh) => match wh.checked_mul(4) {
                Some(l) => l,
                None => return None,
            },
            None => {
                proof {
                    assert(rgba_len(width, height) > usize::MAX) by (nonlinear_arith)
                        requires
                            width as int * height as int > usize::MAX,
                    ;
                }
                return None;
            },
        };
        let data: Vec<u8> = vec![0u8; len];
        assert(data@ =~= Seq::new(rgba_len(width, height) as nat, |i: int| 0u8));
        Some(Pixmap { width, height, data })
    }

    pub fn width(&self) -> (w: u32)
        ensures
            w == self@.0,
    {
        self.width
    }

    pub fn height(&self) -> (h: u32)
        ensures
            h == self@.1,
    {
        self.height
    }

    /// Raw RGBA bytes (premultiplied), four per pixel.
    pub fn data(&self) -> (d: &[u8])
        ensures
            d@ == self@.2,
    {
        self.data.as_slice()
    }

    /// Mutable access to the raw RGBA bytes; the dimensions stay as they are.
    pub fn data_mut(&mut self) -> (d: &mut [u8])
        ensures
            d@ == old(self)@.2,
            final(self)@.2 == final(d)@,
            final(self)@.0 == old(self)@.0,
            final(self)@.1 == old(self)@.1,
    {
        self.data.as_mut_slice()
    }

    /// Takes the buffer, consuming the pixmap.
    pub fn take(self) -> (d: Vec<u8>)
        ensures
            d@ == self@.2,
    {
        self.data
    }

    /// The color of pixel `(x, y)`; `None` outside the image.
    pub fn pixel(&self, x: u32, y: u32) -> (r: Option<PremultipliedColorU8>)
        requires
            self.wf(),
        ensures
            r is None <==> (x >= self@.0 || y >= self@.1),
            r matches Some(p) ==> p@ == self.pixel_spec(x as int, y as int),
    {
        if x >= self.width || y >= self.height {
            return None;
        }
        let len = self.data.len();
        let ghost w = self.width as int;
        let ghost h = self.height as int;
        proof {
            assert((y as int * w + x as int) * 4 + 3 < w * h * 4) by (nonlinear_arith)
                requires
                    (x as int) < w,
                    (y as int) < h,
            ;
            assert(y as int * w <= w * h) by (nonlinear_arith)
                requires
                    (y as int) < h,
                    w > 0,
            ;
        }
        let i = (y as usize * self.width as usize + x as usize) * 4;
        Some(
            PremultipliedColorU8::from_rgba_unchecked(
                self.data[i],
                self.data[i + 1],
                self.data[i + 2],
                self.data[i + 3],
            ),
        )
    }

    /// Fills every pixel with one premultiplied color (no blending).
    pub fn fill(&mut self, color: PremultipliedColorU8)
        requires
            old(self).wf(),
        ensures
            final(self).wf(),
            final(self)@.0 == old(self)@.0,
            final(self)@.1 == old(self)@.1,
            forall|k: int|
                0 <= k < final(self)@.2.len() / 4 ==> #[trigger] px(final(self)@.2, k) == color@,
    {
        let len = self.data.len();
        let n = len / 4;
        let mut k: usize = 0;
        while k < n
            invariant
                n == self.data@.len() / 4,
                len == self.data@.len(),
                self.data@.len() == old(self).data@.len(),
                self.width == old(self).width,
                self.height == old(self).height,
                0 <= k <= n,
                forall|j: int| 0 <= j < k ==> #[trigger] px(self.data@, j) == color@,
            decreases n - k,
        {
            let i = 4 * k;
            let ghost prev = self.data@;
            self.data.set(i, color.red());
            self.data.set(i + 1, color.green());
            self.data.set(i + 2, color.blue());
            self.data.set(i + 3, color.alpha());
            assert(self.data@ == prev.update(i as int, color@.0).update(i + 1, color@.1).update(
                i + 2,
                color@.2,
            ).update(i + 3, color@.3));
            assert forall|j: int| 0 <= j < k + 1 implies #[trigger] px(self.data@, j) == color@ by {
                if j < k {
                    assert(px(prev, j) == color@);
                    assert(4 * j + 3 < i);
                }
            }
            k += 1;
        }
    }

    /// Unfolds premultiplied alpha into straight RGBA, four bytes per pixel:
    /// transparent pixels become zero, opaque ones are copied, and the rest
    /// have each color channel divided back by alpha.
    pub fn to_straight_rgba(&self) -> (out: Vec<u8>)
        ensures
            out@ == straight_rgba_spec(self@.2),
    {
        let len = self.data.len();
        let n = len / 4;
        let mut out: Vec<u8> = Vec::with_capacity(len);
        let mut k: usize = 0;
        while k < n
            invariant
                n == self.data@.len() / 4,
                len == self.data@.len(),
                0 <= k <= n,
                out@.len() == 4 * k,
                forall|i: int|
                    0 <= i < 4 * k ==> #[trigger] out@[i] == component(
                        demultiply_spec(px(self.data@, i / 4)),
                        i % 4,
                    ),
            decreases n - k,
        {
            let i = 4 * k;
            let p = PremultipliedColorU8::from_rgba_unchecked(
                self.data[i],
                self.data[i + 1],
                self.data[i + 2],
                self.data[i + 3],
            );
            let c = p.demultiply();
            out.push(c.red());
            out.push(c.green());
            out.push(c.blue());
            out.push(c.alpha());
            assert forall|t: int| 0 <= t < 4 * (k + 1) implies #[trigger] out@[t] == component(
                demultiply_spec(px(self.data@, t / 4)),
                t % 4,
            ) by {
                if t >= 4 * k {
                    assert(t / 4 == k as int);
                }
            }
            k += 1;
        }
        assert(out@ =~= straight_rgba_spec(self@.2));
        out
    }
}

} // verus!
