//! A read-only, row-major view over caller-owned pixel samples.
use vstd::prelude::*;

use crate::frame::component::UnderlyingComponent;
use crate::Error;

verus! {

/// A `width` × `height` grid of samples, borrowed from the caller.
/// Sample (x, y) lies at row-major index `y * width + x`.
pub struct BitMap<'a> {
    width: u16,
    height: u16,
    map: &'a [UnderlyingComponent],
}

/// Row-major walk over the samples of a [BitMap], x varying fastest.
pub struct BitMapIter<'a> {
    x_pointer: u16,
    y_pointer: u16,
    bitmap: &'a BitMap<'a>,
}

/// Row-major index of sample (x, y) in a grid `width` samples wide.
pub open spec fn row_major(x: int, y: int, width: int) -> int {
    y * width + x
}

impl<'a> View for BitMap<'a> {
    type V = Seq<UnderlyingComponent>;

    closed spec fn view(&self) -> Seq<UnderlyingComponent> {
        self.map@
    }
}

impl<'a> BitMap<'a> {
    #[verifier::type_invariant]
    spec fn inv(&self) -> bool {
        self.map@.len() == self.width as int * self.height as int
    }

    /// Width of the grid, in samples.
    pub closed spec fn width_spec(&self) -> int {
        self.width as int
    }

    /// Height of the grid, in samples.
    pub closed spec fn height_spec(&self) -> int {
        self.height as int
    }

    /// The sample at (x, y), which `get` hands out.
    pub open spec fn at(&self, x: int, y: int) -> UnderlyingComponent {
        self@[row_major(x, y, self.width_spec())]
    }

    /// Builds a view over `slice`, which must hold exactly
    /// `width * height` samples.
    pub fn from_slice(width: u16, height: u16, slice: &'a [UnderlyingComponent]) -> (r: Result<
        Self,
        Error,
    >)
        ensures
            slice@.len() == width as int * height as int <==> r is Ok,
            r is Err ==> r == Err::<Self, Error>(Error::VideoDimensionError),
            r matches Ok(b) ==> b.width_spec() == width && b.height_spec() == height && b@
                == slice@,
    {
        proof {
            assert(width as u64 * height as u64 <= 65535 * 65535) by (nonlinear_arith)
                requires
                    width <= 65535,
                    height <= 65535,
            ;
        }
        if slice.len() as u64 == width as u64 * height as u64 {
            Ok(BitMap { width, height, map: slice })
        } else {
            Err(Error::VideoDimensionError)
        }
    }

    /// Width of the grid, in samples.
    pub fn width(&self) -> (w: u16)
        ensures
            w == self.width_spec(),
            self@.len() == self.width_spec() * self.height_spec(),
    {
        proof {
            use_type_invariant(self);
        }
        self.width
    }

    /// Height of the grid, in samples.
    pub fn height(&self) -> (h: u16)
        ensures
            h == self.height_spec(),
            self@.len() == self.width_spec() * self.height_spec(),
    {
        proof {
            use_type_invariant(self);
        }
        self.height
    }

    /// The sample at (x, y), or `None` outside the grid.
    pub fn get(&self, x: u16, y: u16) -> (r: Option<&UnderlyingComponent>)
        ensures
            x < self.width_spec() && y < self.height_spec() ==> r == Some(&self.at(x as int, y as int)),
            !(x < self.width_spec() && y < self.height_spec()) ==> r is None,
    {
        proof {
            use_type_invariant(self);
        }
        if x < self.width && y < self.height {
            let (xi, yi, w) = (x as usize, y as usize, self.width as usize);
            let n = self.map.len();
            proof {
                let (xx, yy, ww, hh) = (xi as int, yi as int, w as int, self.height as int);
                assert(yy * ww + xx < ww * hh) by (nonlinear_arith)
                    requires
                        0 <= yy < hh,
                        0 <= xx < ww,
                ;
                assert(yy * ww + xx < n);
                assert(0 <= yy * ww <= yy * ww + xx) by (nonlinear_arith)
                    requires
                        0 <= yy,
                        0 <= ww,
                        0 <= xx,
                ;
            }
            Some(&self.map[yi * w + xi])
        } else {
            None
        }
    }

    /// Starts a row-major walk over this bitmap.
    pub fn iter(&'a self) -> (it: BitMapIter<'a>)
        ensures
            it.position() == 0,
            it.samples() == self@,
    {
        BitMapIter { x_pointer: 0, y_pointer: 0, bitmap: self }
    }
}

impl<'a> BitMapIter<'a> {
    #[verifier::type_invariant]
    spec fn inv(&self) -> bool {
        let (w, h) = (self.bitmap.width as int, self.bitmap.height as int);
        ||| self.x_pointer < w && self.y_pointer < h
        ||| self.x_pointer == 0 && self.y_pointer == h
        ||| w == 0 && self.x_pointer == 0 && self.y_pointer == 0
    }

    /// Number of samples already handed out.
    pub closed spec fn position(&self) -> int {
        row_major(self.x_pointer as int, self.y_pointer as int, self.bitmap.width as int)
    }

    /// The samples walked over, in row-major order.
    pub closed spec fn samples(&self) -> Seq<UnderlyingComponent> {
        self.bitmap@
    }

    /// Hands out the next sample in row-major order, or `None` once all
    /// width × height samples have been handed out.
    pub fn next(&mut self) -> (r: Option<&'a UnderlyingComponent>)
        ensures
            final(self).samples() == old(self).samples(),
            0 <= final(self).position() <= final(self).samples().len(),
            old(self).position() < old(self).samples().len() ==> r == Some(
                &old(self).samples()[old(self).position()],
            ) && final(self).position() == old(self).position() + 1,
            old(self).position() >= old(self).samples().len() ==> r is None
                && final(self).position() == old(self).position(),
    {
        proof {
            use_type_invariant(&*self);
            use_type_invariant(self.bitmap);
        let (x, y, w, h) = (
            self.x_pointer as int,
            self.y_pointer as int,
            self.bitmap.width as int,
            self.bitmap.height as int,
        );
        if x < w && y < h {
            assert(y * w + x < w * h) by (nonlinear_arith)
                requires
                    0 <= x < w,
                    0 <= y < h,
            ;
        }
        assert(0 <= y * w) by (nonlinear_arith)
            requires
                0 <= y,
                0 <= w,
        ;
        }
        let w = self.bitmap.width;
        let h = self.bitmap.height;
        let ghost old_pos = self.position();
        proof {
            assert(h as int * w as int == w as int * h as int) by (nonlinear_arith);
        }
        if self.x_pointer < w && self.y_pointer < h {
            let r = self.bitmap.get(self.x_pointer, self.y_pointer);
            let ghost (x0, y0) = (self.x_pointer as int, self.y_pointer as int);
            if self.x_pointer + 1 == w {
                self.x_pointer = 0;
                self.y_pointer = self.y_pointer + 1;
                proof {
                    assert((y0 + 1) * w == y0 * w + x0 + 1) by (nonlinear_arith)
                        requires
                            x0 + 1 == w,
                    ;
                    assert((y0 + 1) * w <= w * h) by (nonlinear_arith)
                        requires
                            y0 + 1 <= h,
                            0 <= w,
                    ;
                }
            } else {
                self.x_pointer = self.x_pointer + 1;
                proof {
                    assert(y0 * w + x0 + 1 < w * h) by (nonlinear_arith)
                        requires
                            0 <= y0 < h,
                            x0 + 1 < w,
                    ;
                }
            }
            r
        } else {
            proof {
                let (x0, y0) = (self.x_pointer as int, self.y_pointer as int);
                if w == 0 {
                    assert(y0 * w == 0 && w * h == 0) by (nonlinear_arith)
                        requires
                            w == 0,
                    ;
                } else {
                    assert(x0 == 0 && y0 == h);
                    assert(old_pos == w * h) by (nonlinear_arith)
                        requires
                            old_pos == y0 * w + x0,
                            x0 == 0,
                            y0 == h,
                    ;
                }
            }
            None
        }
    }
}

/// Row-major order: the k-th sample of a walk over a `width` × `height`
/// grid, for k below width × height, is the sample at
/// (k mod width, k div width), so x varies fastest and the walk visits each
/// of the width × height positions exactly once.
pub proof fn lemma_row_major_order(width: int, height: int, k: int)
    requires
        0 < width,
        0 <= height,
        0 <= k < width * height,
    ensures
        0 <= k % width < width,
        0 <= k / width < height,
        row_major(k % width, k / width, width) == k,
        forall|x: int, y: int|
            0 <= x < width && 0 <= y < height && row_major(x, y, width) == k ==> x == k % width
                && y == k / width,
{
    assert(k / width < height) by (nonlinear_arith)
        requires
            0 < width,
            0 <= k < width * height,
    ;
    vstd::arithmetic::div_mod::lemma_fundamental_div_mod(k, width);
    assert(width * (k / width) == (k / width) * width) by (nonlinear_arith);
    assert forall|x: int, y: int|
        0 <= x < width && 0 <= y < height && row_major(x, y, width) == k implies x == k % width
        && y == k / width by {
        vstd::arithmetic::div_mod::lemma_fundamental_div_mod_converse(k, width, y, x);
    }
}

} // verus!
