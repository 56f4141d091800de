//! A width × height grid of pixels, addressed by column `x` and row `y` from
//! the top-left corner.
use vstd::prelude::*;
use crate::ppm::{Rgb8, encode_ppm, ppm_text};

verus! {

/// Why a canvas operation could not be carried out.
#[derive(Debug, Clone, Copy, PartialEq, Eq, Structural)]
pub enum CanvasError {
    /// `x` is not below the width or `y` is not below the height.
    IndexOutOfRange,
}

/// The mathematical content of a canvas: its dimensions and its pixels,
/// row-major.
pub struct CanvasModel<P> {
    pub width: nat,
    pub height: nat,
    pub pixels: Seq<P>,
}

impl<P> CanvasModel<P> {
    /// There is one pixel per (x, y) position.
    pub open spec fn well_formed(self) -> bool {
        self.pixels.len() == self.width * self.height
    }

    /// Whether (`x`, `y`) lies on the canvas.
    pub open spec fn in_bounds(self, x: int, y: int) -> bool {
        0 <= x < self.width && 0 <= y < self.height
    }

    /// Where the pixel at (`x`, `y`) is stored.
    pub open spec fn index_of(self, x: int, y: int) -> int {
        y * self.width + x
    }

    /// The pixel at (`x`, `y`).
    pub open spec fn at(self, x: int, y: int) -> P {
        self.pixels[self.index_of(x, y)]
    }
}

/// A grid of pixels of type `P`, stored row-major.
#[derive(Debug)]
pub struct Canvas<P> {
    width: usize,
    height: usize,
    pixels: Vec<P>,
}

impl<P> View for Canvas<P> {
    type V = CanvasModel<P>;

    closed spec fn view(&self) -> CanvasModel<P> {
        CanvasModel { width: self.width as nat, height: self.height as nat, pixels: self.pixels@ }
    }
}

/// A position on the canvas lies inside the pixel storage.
proof fn lemma_index_in_range(width: nat, height: nat, x: nat, y: nat)
    requires
        x < width,
        y < height,
    ensures
        y * width + x < width * height,
{
    assert(y * width + x < width * height) by (nonlinear_arith)
        requires
            x < width,
            y < height,
    ;
}

impl<P> Canvas<P> {
    #[verifier::type_invariant]
    closed spec fn inv(self) -> bool {
        self@.well_formed()
    }
}

impl<P: Copy> Canvas<P> {
    /// A `width` × `height` canvas with every pixel set to `fill`.
    pub fn new(width: usize, height: usize, fill: P) -> (c: Canvas<P>)
        requires
            width * height <= usize::MAX,
        ensures
            c@.width == width,
            c@.height == height,
            c@.well_formed(),
            c@.pixels == Seq::new((width * height) as nat, |i: int| fill),
    {
        let n = width * height;
        let mut pixels: Vec<P> = Vec::new();
        let mut i: usize = 0;
        while i < n
            invariant
                i <= n,
                pixels@ == Seq::new(i as nat, |k: int| fill),
            decreases n - i,
        {
            pixels.push(fill);
            i = i + 1;
            assert(pixels@ =~= Seq::new(i as nat, |k: int| fill));
        }
        Canvas { width, height, pixels }
    }

    /// The number of columns.
    pub fn width(&self) -> (r: usize)
        ensures
            r == self@.width,
    {
        self.width
    }

    /// The number of rows.
    pub fn height(&self) -> (r: usize)
        ensures
            r == self@.height,
    {
        self.height
    }

    /// All pixels, row-major.
    pub fn pixels(&self) -> (r: &Vec<P>)
        ensures
            r@ == self@.pixels,
    {
        &self.pixels
    }

    /// The pixel at (`x`, `y`), or `IndexOutOfRange` when it lies off the canvas.
    pub fn pixel_at(&self, x: usize, y: usize) -> (r: Result<P, CanvasError>)
        ensures
            self@.in_bounds(x as int, y as int) ==> r == Ok::<P, CanvasError>(self@.at(x as int, y as int)),
            !self@.in_bounds(x as int, y as int) ==> r == Err::<P, CanvasError>(
                CanvasError::IndexOutOfRange,
            ),
    {
        proof {
            use_type_invariant(self);
        }
        let n = self.pixels.len();
        if x < self.width && y < self.height {
            proof {
                lemma_index_in_range(self.width as nat, self.height as nat, x as nat, y as nat);
            }
            Ok(self.pixels[y * self.width + x])
        } else {
            Err(CanvasError::IndexOutOfRange)
        }
    }

    /// Sets the pixel at (`x`, `y`) to `color`; off the canvas, changes
    /// nothing and reports `IndexOutOfRange`.
    pub fn write_pixel(&mut self, x: usize, y: usize, color: P) -> (r: Result<(), CanvasError>)
        ensures
            final(self)@.width == old(self)@.width,
            final(self)@.height == old(self)@.height,
            old(self)@.in_bounds(x as int, y as int) ==> {
                &&& r == Ok::<(), CanvasError>(())
                &&& final(self)@.pixels == old(self)@.pixels.update(
                    old(self)@.index_of(x as int, y as int),
                    color,
                )
            },
            !old(self)@.in_bounds(x as int, y as int) ==> {
                &&& r == Err::<(), CanvasError>(CanvasError::IndexOutOfRange)
                &&& final(self)@ == old(self)@
            },
    {
        proof {
            use_type_invariant(&*self);
        }
        let n = self.pixels.len();
        if x < self.width && y < self.height {
            proof {
                lemma_index_in_range(self.width as nat, self.height as nat, x as nat, y as nat);
            }
            let i = y * self.width + x;
            let mut taken = Canvas { width: 0, height: 0, pixels: Vec::new() };
            std::mem::swap(self, &mut taken);
            let Canvas { width, height, mut pixels } = taken;
            pixels.set(i, color);
            *self = Canvas { width, height, pixels };
            Ok(())
        } else {
            Err(CanvasError::IndexOutOfRange)
        }
    }
}

impl Canvas<Rgb8> {
    /// The canvas as plain-text portable pixel map.
    pub fn to_ppm(&self) -> (r: String)
        ensures
            r@ == ppm_text(self@.width, self@.height, self@.pixels),
    {
        proof {
            use_type_invariant(self);
        }
        encode_ppm(self.width, self.height, &self.pixels)
    }
}

} // verus!
