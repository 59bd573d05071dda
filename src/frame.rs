//! Video frames, their pixel samples and star detection.
use vstd::prelude::*;

pub mod component;
mod bitmap;
pub mod detector;
pub mod stats;

pub use bitmap::{BitMap, BitMapIter};

use crate::frame::component::UnderlyingComponent;
use crate::frame::stats::{floor_sqrt, isqrt, level_square_sum, level_sum, spread, square_sum, sum};
use crate::Error;

verus! {

/// Star threshold of a frame whose gray levels are `levels`: mean + 5·σ
/// rounded to the nearest integer (halves upwards) and clamped to 255.
///
/// With n values of sum s, mean + 5·σ = (s + √(25·spread)) / n, so its
/// rounding is ⌊(2s + n + √(100·spread)) / 2n⌋, and the square root may be
/// rounded down first without changing the result.
pub open spec fn threshold_spec(levels: Seq<int>) -> int {
    let n = levels.len() as int;
    let s = sum(levels);
    let r = floor_sqrt(100 * spread(n, s, square_sum(levels)));
    if n == 0 {
        255
    } else if (2 * s + n + r) / (2 * n) > 255 {
        255
    } else {
        (2 * s + n + r) / (2 * n)
    }
}

/// Pixel `i` is a star candidate: its gray level reaches the threshold and
/// lies strictly above the mean.
pub open spec fn is_candidate(levels: Seq<int>, i: int) -> bool {
    levels[i] >= threshold_spec(levels) && levels[i] * levels.len() > sum(levels)
}

/// A frame whose gray levels are all equal has no star candidate.
pub proof fn lemma_uniform_no_candidate(levels: Seq<int>, g: int, i: int)
    requires
        forall|k: int| 0 <= k < levels.len() ==> levels[k] == g,
        0 <= i < levels.len(),
    ensures
        !is_candidate(levels, i),
{
    stats::lemma_uniform_sum(levels, g);
    assert(g * levels.len() == levels.len() * g) by (nonlinear_arith);
}

/// [Frame] describes a video frame: its dimensions and the bitmap captured.
pub struct Frame<'a> {
    x: usize,
    y: usize,
    bitmap: BitMap<'a>,
}

impl<'a> Frame<'a> {
    #[verifier::type_invariant]
    spec fn inv(&self) -> bool {
        self.x == self.bitmap.width_spec() && self.y == self.bitmap.height_spec()
    }

    /// Frame width, in pixels.
    pub closed spec fn width_spec(&self) -> int {
        self.x as int
    }

    /// Frame height, in pixels.
    pub closed spec fn height_spec(&self) -> int {
        self.y as int
    }

    /// The samples of the frame, in row-major order.
    pub closed spec fn samples(&self) -> Seq<UnderlyingComponent> {
        self.bitmap@
    }

    /// Gray level of each sample, in row-major order.
    pub open spec fn levels(&self) -> Seq<int> {
        self.samples().map_values(|c: UnderlyingComponent| c.gray8_spec())
    }

    /// Creates a new video [Frame] of `x` × `y` pixels over `bitmap`,
    /// which must have the same dimensions.
    pub fn new(x: usize, y: usize, bitmap: BitMap<'a>) -> (r: Result<Self, Error>)
        ensures
            r is Ok <==> x == bitmap.width_spec() && y == bitmap.height_spec(),
            r is Err ==> r == Err::<Self, Error>(Error::VideoDimensionError),
            r matches Ok(f) ==> f.width_spec() == x && f.height_spec() == y && f.samples()
                == bitmap@,
    {
        if x == bitmap.width() as usize && y == bitmap.height() as usize {
            Ok(Frame { x, y, bitmap })
        } else {
            Err(Error::VideoDimensionError)
        }
    }

    /// The sample at pixel (x, y), or `None` outside the frame.
    pub fn get(&self, x: u16, y: u16) -> (r: Option<&UnderlyingComponent>)
        ensures
            x < self.width_spec() && y < self.height_spec() ==> r == Some(
                &self.samples()[x + y * self.width_spec()],
            ),
            !(x < self.width_spec() && y < self.height_spec()) ==> r is None,
    {
        proof {
            use_type_invariant(self);
        }
        self.bitmap.get(x, y)
    }

    /// Frame width, in pixels.
    pub fn width(&self) -> (w: usize)
        ensures
            w == self.width_spec(),
            w <= 65535,
    {
        proof {
            use_type_invariant(self);
        }
        self.bitmap.width() as usize
    }

    /// Frame height, in pixels.
    pub fn height(&self) -> (h: usize)
        ensures
            h == self.height_spec(),
            h <= 65535,
    {
        proof {
            use_type_invariant(self);
        }
        self.bitmap.height() as usize
    }

    /// Total area of this [Frame], in pixels.
    pub fn area(&self) -> (a: usize)
        ensures
            a == self.width_spec() * self.height_spec(),
            a == self.samples().len(),
    {
        proof {
            use_type_invariant(self);
        }
        let w = self.bitmap.width();
        let h = self.bitmap.height();
        proof {
            assert(w as int * h as int <= 0xffff_ffff) by (nonlinear_arith)
                requires
                    w <= 65535,
                    h <= 65535,
            ;
        }
        (w as usize) * (h as usize)
    }

    /// Gray level of every sample, walking the bitmap in row-major order.
    fn gray_levels(&self) -> (levels: Vec<u8>)
        ensures
            levels@.map_values(|v: u8| v as int) == self.levels(),
            levels@.len() == self.width_spec() * self.height_spec(),
            levels@.len() <= 0x1_0000_0000,
    {
        proof {
            use_type_invariant(self);
        }
        let w = self.bitmap.width();
        let h = self.bitmap.height();
        proof {
            assert(w as int * h as int <= 0x1_0000_0000) by (nonlinear_arith)
                requires
                    w <= 65535,
                    h <= 65535,
            ;
        }
        let mut levels: Vec<u8> = Vec::new();
        let mut it = self.bitmap.iter();
        loop
            invariant
                it.samples() == self.samples(),
                0 <= it.position() <= it.samples().len(),
                levels@.len() == it.position(),
                forall|k: int|
                    0 <= k < it.position() ==> levels@[k] as int == it.samples()[k].gray8_spec(),
            ensures
                levels@.len() == self.samples().len(),
                forall|k: int|
                    0 <= k < levels@.len() ==> levels@[k] as int == self.samples()[k].gray8_spec(),
            decreases it.samples().len() - it.position(),
        {
            match it.next() {
                Some(c) => {
                    levels.push(c.to_gray8());
                },
                None => {
                    break ;
                },
            }
        }
        assert(levels@.map_values(|v: u8| v as int) =~= self.levels());
        levels
    }

    /// Star luminosity threshold of this [Frame], as `threshold_spec` states.
    pub fn gray8_star_luminosity_threshold(&self) -> (t: u8)
        ensures
            t == threshold_spec(self.levels()),
    {
        let levels = self.gray_levels();
        threshold_of_levels(&levels)
    }
}

/// Star threshold of the gray levels `levels`.
pub fn threshold_of_levels(levels: &Vec<u8>) -> (t: u8)
    requires
        levels@.len() <= 0x1_0000_0000,
    ensures
        t == threshold_spec(levels@.map_values(|v: u8| v as int)),
{
    let ghost vals = levels@.map_values(|v: u8| v as int);
    let n = levels.len() as u64;
    if n == 0 {
        return 255;
    }
    let s = level_sum(levels);
    let q = level_square_sum(levels);
    let (n2, s2, q2) = (n as u128, s as u128, q as u128);
    proof {
        assert(n2 * q2 <= 0x1_0000_0000 * (65025 * 0x1_0000_0000)) by (nonlinear_arith)
            requires
                n2 <= 0x1_0000_0000,
                q2 <= 65025 * n2,
        ;
        assert(s2 <= 0xff_0000_0000);
        assert(s2 * s2 <= 0xff_0000_0000 * 0xff_0000_0000) by (nonlinear_arith)
            requires
                s2 <= 0xff_0000_0000,
        ;
    }
    let nq = n2 * q2;
    let ss = s2 * s2;
    let d: u128 = if nq >= ss {
        nq - ss
    } else {
        0
    };
    let r = isqrt(100 * d) as u128;
    proof {
        assert(r * r <= 100 * d);
        assert(r <= 0x1000_0000_0000) by (nonlinear_arith)
            requires
                r * r <= 100 * d,
                d <= 0x1_0000_0000 * (65025 * 0x1_0000_0000),
        ;
    }
    let c = (2 * s2 + n2 + r) / (2 * n2);
    if c > 255 {
        255
    } else {
        c as u8
    }
}

} // verus!
