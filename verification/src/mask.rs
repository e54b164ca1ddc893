//! [`Mask`]: a clipping mask, one coverage byte (`0..=255`) per pixel.
//!
//! During fill and stroke the coverage of each pixel is multiplied by the mask
//! value, so a shape is visible only where the mask is non-zero. The mask has
//! the size of the pixmap it clips: clipping is pixel by pixel in canvas
//! coordinates.

use vstd::prelude::*;

verus! {

/// The product of two coverages in `0..=255`, rounded: `(a·b + 127) / 255`.
pub open spec fn coverage_product(a: u8, b: u8) -> u8 {
    ((a as int * b as int + 127) / 255) as u8
}

/// A clipping mask: `width × height` coverage values, row by row.
#[derive(Clone)]
pub struct Mask {
    width: u32,
    height: u32,
    data: Vec<u8>,
}

impl View for Mask {
    type V = (u32, u32, Seq<u8>);

    closed spec fn view(&self) -> (u32, u32, Seq<u8>) {
        (self.width, self.height, self.data@)
    }
}

impl Mask {
    /// Well-formed: non-zero dimensions and exactly `width · height` bytes.
    pub open spec fn wf(&self) -> bool {
        &&& self@.0 > 0
        &&& self@.1 > 0
        &&& self@.2.len() == self@.0 as int * self@.1 as int
    }

    /// The coverage at pixel `(x, y)`; zero outside the mask.
    pub open spec fn coverage_spec(&self, x: int, y: int) -> u8 {
        if 0 <= x < self@.0 && 0 <= y < self@.1 {
            self@.2[y * self@.0 + x]
        } else {
            0
        }
    }

    /// Creates an empty mask (coverage zero everywhere: everything is clipped).
    /// `None` for a zero dimension or when the pixel count does not fit in
    /// `usize`.
    pub fn new(width: u32, height: u32) -> (r: Option<Mask>)
        ensures
            r is None <==> (width == 0 || height == 0 || width as int * height as int
                > usize::MAX),
            r matches Some(m) ==> m.wf() && m@.0 == width && m@.1 == height && m@.2 == Seq::new(
                (width as int * height as int) as nat,
                |i: int| 0u8,
            ),
    {
        if width == 0 || height == 0 {
            return None;
        }
        let len = match (width as usize).checked_mul(height as usize) {
            Some(l) => l,
            None => return None,
        };
        let data: Vec<u8> = vec![0u8; len];
        assert(data@ =~= Seq::new((width as int * height as int) as nat, |i: int| 0u8));
        Some(Mask { width, height, data })
    }

    pub fn width(&self) -> (w: u32)
        ensures
            w == self@.0,
    {
        self.width
    }

    pub fn height(&self) -> (h: u32)
        ensures
            h == self@.1,
    {
        self.height
    }

    /// Raw coverage values, one per pixel.
    pub fn data(&self) -> (d: &[u8])
        ensures
            d@ == self@.2,
    {
        self.data.as_slice()
    }

    /// Mutable access to the coverage values; the dimensions stay as they are.
    pub fn data_mut(&mut self) -> (d: &mut [u8])
        ensures
            d@ == old(self)@.2,
            final(self)@.2 == final(d)@,
            final(self)@.0 == old(self)@.0,
            final(self)@.1 == old(self)@.1,
    {
        self.data.as_mut_slice()
    }

    /// The coverage byte at pixel `(x, y)`; zero outside the mask.
    pub fn coverage(&self, x: usize, y: usize) -> (c: u8)
        requires
            self.wf(),
        ensures
            c == self.coverage_spec(x as int, y as int),
    {
        if x >= self.width as usize || y >= self.height as usize {
            return 0;
        }
        let w = self.width as usize;
        let len = self.data.len();
        proof {
            assert(y * w + x < w as int * self@.1 as int) by (nonlinear_arith)
                requires
                    x < w,
                    y < self@.1,
            ;
        }
        assert(y * w + x < len);
        self.data[y * w + x]
    }

    /// Adds coverage at pixel `(x, y)`, as a union: the larger of the old and
    /// the new value is kept. Pixels outside the mask are left alone.
    pub fn unite_at(&mut self, x: usize, y: usize, coverage: u8)
        requires
            old(self).wf(),
        ensures
            final(self).wf(),
            final(self)@.0 == old(self)@.0,
            final(self)@.1 == old(self)@.1,
            x < old(self)@.0 && y < old(self)@.1 ==> final(self)@.2 == old(self)@.2.update(
                y * old(self)@.0 + x,
                if coverage > old(self)@.2[y * old(self)@.0 + x] {
                    coverage
                } else {
                    old(self)@.2[y * old(self)@.0 + x]
                },
            ),
            !(x < old(self)@.0 && y < old(self)@.1) ==> final(self)@.2 == old(self)@.2,
    {
        if x >= self.width as usize || y >= self.height as usize {
            return;
        }
        let w = self.width as usize;
        let len = self.data.len();
        proof {
            assert(y * w + x < w as int * self@.1 as int) by (nonlinear_arith)
                requires
                    x < w,
                    y < self@.1,
            ;
        }
        assert(y * w + x < len);
        let i = y * w + x;
        if coverage > self.data[i] {
            self.data.set(i, coverage);
        }
    }

    /// Intersects the mask with another coverage, value by value in buffer
    /// order: each value becomes the rounded product `(a·b + 127) / 255`, so
    /// pixels that are clipped in either mask are clipped in the result. Where
    /// `other` is shorter, the values past its end stay as they are.
    pub fn intersect(&mut self, other: &Mask)
        ensures
            final(self)@.0 == old(self)@.0,
            final(self)@.1 == old(self)@.1,
            final(self)@.2.len() == old(self)@.2.len(),
            forall|i: int|
                0 <= i < old(self)@.2.len() ==> #[trigger] final(self)@.2[i] == if i
                    < other@.2.len() {
                    coverage_product(old(self)@.2[i], other@.2[i])
                } else {
                    old(self)@.2[i]
                },
    {
        let n = if self.data.len() < other.data.len() {
            self.data.len()
        } else {
            other.data.len()
        };
        let mut i: usize = 0;
        while i < n
            invariant
                n <= self.data@.len(),
                n <= other@.2.len(),
                n == self.data@.len() || n == other@.2.len(),
                self.data@.len() == old(self)@.2.len(),
                0 <= i <= n,
                self.width == old(self)@.0,
                self.height == old(self)@.1,
                forall|j: int|
                    0 <= j < i ==> #[trigger] self.data@[j] == coverage_product(
                        old(self)@.2[j],
                        other@.2[j],
                    ),
                forall|j: int|
                    i <= j < self.data@.len() ==> #[trigger] self.data@[j] == old(self)@.2[j],
            decreases n - i,
        {
            let a = self.data[i] as u16;
            let b = other.data[i] as u16;
            assert(a * b <= 255 * 255) by (nonlinear_arith)
                requires
                    a <= 255,
                    b <= 255,
            ;
            let v = (a * b + 127) / 255;
            assert(v <= 255);
            self.data.set(i, v as u8);
            i += 1;
        }
    }
}

/// Intersecting with a fully covering mask leaves a mask unchanged, and
/// intersecting with an empty one clears it.
pub proof fn lemma_coverage_product_identity_and_zero(a: u8)
    ensures
        coverage_product(a, 255) == a,
        coverage_product(255, a) == a,
        coverage_product(a, 0) == 0,
        coverage_product(0, a) == 0,
{
    assert((a as int * 255 + 127) / 255 == a as int) by (nonlinear_arith)
        requires
            0 <= a <= 255,
    ;
    assert((255 * a as int + 127) / 255 == a as int) by (nonlinear_arith)
        requires
            0 <= a <= 255,
    ;
}

/// Intersection is symmetric and never raises a coverage above either input.
pub proof fn lemma_coverage_product_commutes_and_shrinks(a: u8, b: u8)
    ensures
        coverage_product(a, b) == coverage_product(b, a),
        coverage_product(a, b) <= a,
        coverage_product(a, b) <= b,
{
    assert(a as int * b as int == b as int * a as int) by (nonlinear_arith);
    assert((a as int * b as int + 127) / 255 <= a as int) by (nonlinear_arith)
        requires
            0 <= a <= 255,
            0 <= b <= 255,
    ;
    assert((a as int * b as int + 127) / 255 <= b as int) by (nonlinear_arith)
        requires
            0 <= a <= 255,
            0 <= b <= 255,
    ;
}

} // verus!
