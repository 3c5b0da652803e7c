//! Plain data carried through the renderer: colors, materials and the
//! row-major pixel grid that a render produces and the generator consumes.

use vstd::prelude::*;

verus! {

/// Largest width or height an image may have.
pub const DIM_MAX: u32 = 8192;

/// An 8-bit-per-channel color.
#[derive(Clone, Copy, PartialEq, Eq, Structural, Debug)]
pub struct Color {
    pub r: u8,
    pub g: u8,
    pub b: u8,
}

/// Surface appearance of a primitive: its base color.
#[derive(Clone, Copy, PartialEq, Eq, Structural, Debug)]
pub struct Material {
    pub color: Color,
}

/// The color that rays hitting no primitive resolve to.
pub open spec fn background() -> Color {
    Color { r: 0, g: 0, b: 0 }
}

/// Returns the background color.
pub fn background_color() -> (c: Color)
    ensures
        c == background(),
{
    Color { r: 0, g: 0, b: 0 }
}

/// A width x height grid of colors, row-major: the pixel at column `x` of
/// row `y` sits at index `y * width + x`.
#[derive(Debug, PartialEq)]
pub struct Image {
    pub width: u32,
    pub height: u32,
    pub pixels: Vec<Color>,
}

/// Row-major index of a pixel coordinate.
pub open spec fn pix_index(width: int, x: int, y: int) -> int {
    y * width + x
}

/// A pixel coordinate in range maps to an index below `width * height`.
pub proof fn lemma_pix_index_in_range(width: int, height: int, x: int, y: int)
    requires
        0 <= x < width,
        0 <= y < height,
    ensures
        0 <= pix_index(width, x, y) < width * height,
{
    assert(0 <= y * width + x && y * width + x < width * height) by (nonlinear_arith)
        requires
            0 <= x < width,
            0 <= y < height,
    ;
}

impl Image {
    /// Validity: bounded dimensions and exactly one stored color per pixel.
    pub open spec fn wf(self) -> bool {
        &&& self.width <= DIM_MAX
        &&& self.height <= DIM_MAX
        &&& self.pixels@.len() == self.width * self.height
    }

    /// The color stored for the pixel at column `x`, row `y`.
    pub open spec fn pixel(self, x: int, y: int) -> Color {
        self.pixels@[pix_index(self.width as int, x, y)]
    }

    /// Creates an image of the given size with every pixel set to the
    /// background color; rejects dimensions over `DIM_MAX`.
    pub fn new(width: u32, height: u32) -> (res: Option<Image>)
        ensures
            (width <= DIM_MAX && height <= DIM_MAX) <==> res is Some,
            res is Some ==> {
                let img = res->Some_0;
                &&& img.wf()
                &&& img.width == width
                &&& img.height == height
                &&& forall|x: int, y: int|
                    0 <= x < width && 0 <= y < height ==> #[trigger] img.pixel(x, y) == background()
            },
    {
        if width > DIM_MAX || height > DIM_MAX {
            return None;
        }
        proof {
            crate::math::lemma_mul_bound(width as int, height as int, 8192, 8192);
        }
        let n: usize = (width as usize) * (height as usize);
        let mut pixels: Vec<Color> = Vec::new();
        let mut i: usize = 0;
        while i < n
            invariant
                i <= n,
                pixels@.len() == i,
                forall|k: int| 0 <= k < i ==> #[trigger] pixels@[k] == background(),
            decreases n - i,
        {
            pixels.push(background_color());
            i = i + 1;
        }
        let img = Image { width, height, pixels };
        proof {
            assert forall|x: int, y: int|
                0 <= x < width && 0 <= y < height implies #[trigger] img.pixel(x, y) == background() by {
                lemma_pix_index_in_range(width as int, height as int, x, y);
            }
        }
        Some(img)
    }

    /// Width accessor.
    pub fn get_width(&self) -> (w: u32)
        ensures
            w == self.width,
    {
        self.width
    }

    /// Height accessor.
    pub fn get_height(&self) -> (h: u32)
        ensures
            h == self.height,
    {
        self.height
    }

    /// Reads the pixel at column `x`, row `y`.
    pub fn get(&self, x: u32, y: u32) -> (c: Color)
        requires
            self.wf(),
            x < self.width,
            y < self.height,
        ensures
            c == self.pixel(x as int, y as int),
    {
        proof {
            lemma_pix_index_in_range(self.width as int, self.height as int, x as int, y as int);
            crate::math::lemma_mul_bound(y as int, self.width as int, 8192, 8192);
            crate::math::lemma_mul_bound(self.width as int, self.height as int, 8192, 8192);
        }
        let idx: usize = (y as usize) * (self.width as usize) + (x as usize);
        self.pixels[idx]
    }

    /// Writes the pixel at column `x`, row `y`, leaving every other pixel
    /// unchanged.
    pub fn set(&mut self, x: u32, y: u32, c: Color)
        requires
            old(self).wf(),
            x < old(self).width,
            y < old(self).height,
        ensures
            final(self).wf(),
            final(self).width == old(self).width,
            final(self).height == old(self).height,
            final(self).pixel(x as int, y as int) == c,
            forall|i: int|
                0 <= i < final(self).pixels@.len() && i != pix_index(
                    old(self).width as int,
                    x as int,
                    y as int,
                ) ==> #[trigger] final(self).pixels@[i] == old(self).pixels@[i],
    {
        proof {
            lemma_pix_index_in_range(
                old(self).width as int,
                old(self).height as int,
                x as int,
                y as int,
            );
            crate::math::lemma_mul_bound(y as int, old(self).width as int, 8192, 8192);
            crate::math::lemma_mul_bound(old(self).width as int, old(self).height as int, 8192, 8192);
        }
        let idx: usize = (y as usize) * (self.width as usize) + (x as usize);
        self.pixels.set(idx, c);
    }
}

} // verus!
