//! The grayscale pixel buffer that the engine paints into.
//!
//! The pixels live in an `image::GrayImage`. Its contents are modelled as the
//! row-major sequence of intensities that the image crate documents: pixel
//! `(x, y)` of an image `width` pixels wide is element `y * width + x`.

use image::{GrayImage, Luma};
use vstd::arithmetic::div_mod::lemma_fundamental_div_mod_converse;
use vstd::prelude::*;

verus! {

/// An `image::GrayImage`, opaque to the verifier. All that is known of it is
/// what the functions below state over [`raster_size`] and [`raster_data`].
#[verifier::external_body]
pub struct Raster {
    image: GrayImage,
}

/// Width and height of the image, in pixels.
pub uninterp spec fn raster_size(raster: Raster) -> (u32, u32);

/// The intensities that the image holds, row by row.
pub uninterp spec fn raster_data(raster: Raster) -> Seq<u8>;

/// `GrayImage::from_raw`: wraps `data` as an image of the given size. The call
/// succeeds exactly when `data` holds at least `width * height` intensities,
/// and the image then holds `data` unchanged.
#[verifier::external_body]
fn raster_from_raw(width: u32, height: u32, data: Vec<u8>) -> (made: Option<Raster>)
    ensures
        made is Some <==> width * height <= data@.len(),
        made matches Some(raster) ==> raster_size(raster) == (width, height) && raster_data(raster)
            == data@,
{
    match GrayImage::from_raw(width, height, data) {
        Some(image) => Some(Raster { image }),
        None => None,
    }
}

/// `GrayImage::into_raw`: hands back the intensities that the image holds.
#[verifier::external_body]
fn raster_into_raw(raster: Raster) -> (data: Vec<u8>)
    ensures
        data@ == raster_data(raster),
{
    raster.image.into_raw()
}

/// `GrayImage::dimensions`: the width and height of the image.
#[verifier::external_body]
fn raster_dimensions(raster: &Raster) -> (size: (u32, u32))
    ensures
        size == raster_size(*raster),
{
    raster.image.dimensions()
}

/// `GrayImage::put_pixel`: stores `intensity` at `(x, y)` and touches nothing
/// else. The image crate panics outside the image, which `requires` rules out.
#[verifier::external_body]
fn raster_put_pixel(raster: &mut Raster, x: u32, y: u32, intensity: u8)
    requires
        x < raster_size(*old(raster)).0,
        y < raster_size(*old(raster)).1,
    ensures
        raster_size(*final(raster)) == raster_size(*old(raster)),
        raster_data(*final(raster)) == raster_data(*old(raster)).update(
            y * raster_size(*old(raster)).0 + x,
            intensity,
        ),
{
    raster.image.put_pixel(x, y, Luma([intensity]))
}

/// `GrayImage::get_pixel`: the intensity stored at `(x, y)`. The image crate
/// panics outside the image, which `requires` rules out.
#[verifier::external_body]
fn raster_get_pixel(raster: &Raster, x: u32, y: u32) -> (intensity: u8)
    requires
        x < raster_size(*raster).0,
        y < raster_size(*raster).1,
    ensures
        intensity == raster_data(*raster)[y * raster_size(*raster).0 + x],
{
    raster.image.get_pixel(x, y).0[0]
}

/// Row-major indices stay inside the image and tell pixels apart.
pub proof fn lemma_pixel_index(width: int, height: int, x: int, y: int)
    requires
        0 <= x < width,
        0 <= y < height,
    ensures
        0 <= y * width + x < width * height,
        (y * width + x) / width == y,
        (y * width + x) % width == x,
{
    assert(y * width + x < width * height) by (nonlinear_arith)
        requires
            0 <= x < width,
            0 <= y,
            y + 1 <= height,
    ;
    assert(0 <= y * width) by (nonlinear_arith)
        requires
            0 <= y,
            0 < width,
    ;
    lemma_fundamental_div_mod_converse(y * width + x, width, y, x);
}

/// A grayscale image together with a count, kept for proofs only, of how often
/// each pixel has been written.
pub struct Canvas {
    raster: Raster,
    writes: Ghost<Map<(int, int), nat>>,
}

impl View for Canvas {
    type V = Seq<u8>;

    /// The intensities of the image, row by row.
    closed spec fn view(&self) -> Seq<u8> {
        raster_data(self.raster)
    }
}

impl Canvas {
    /// The canvas holds an intensity for each of its `width * height` pixels.
    pub open spec fn wf(&self) -> bool {
        &&& self.width() <= u32::MAX
        &&& self.height() <= u32::MAX
        &&& self.width() * self.height() <= self@.len()
    }

    /// Width of the image in pixels.
    pub closed spec fn width(&self) -> nat {
        raster_size(self.raster).0 as nat
    }

    /// Height of the image in pixels.
    pub closed spec fn height(&self) -> nat {
        raster_size(self.raster).1 as nat
    }

    /// Whether `(x, y)` names a pixel of the image.
    pub open spec fn contains(&self, x: int, y: int) -> bool {
        0 <= x < self.width() && 0 <= y < self.height()
    }

    /// The intensity of pixel `(x, y)`.
    pub open spec fn pixel(&self, x: int, y: int) -> u8 {
        self@[y * self.width() + x]
    }

    /// Whether this canvas differs from `other` in the intensities of its
    /// pixels at most: same size, same number of intensities, and the same
    /// spare intensities behind the last pixel.
    pub open spec fn same_frame(&self, other: Canvas) -> bool {
        &&& self.width() == other.width()
        &&& self.height() == other.height()
        &&& self@.len() == other@.len()
        &&& forall|i: int|
            self.width() * self.height() <= i < self@.len() ==> #[trigger] self@[i] == other@[i]
    }

    /// How often pixel `(x, y)` has been written since the canvas was made.
    pub closed spec fn writes(&self, x: int, y: int) -> nat {
        if self.writes@.dom().contains((x, y)) {
            self.writes@[(x, y)]
        } else {
            0
        }
    }

    /// Wraps a row-major block of intensities as a canvas of the given size,
    /// with no pixel written yet. Fails when `data` is too short for the size.
    pub fn from_raw(width: u32, height: u32, data: Vec<u8>) -> (made: Option<Canvas>)
        ensures
            made is Some <==> width * height <= data@.len(),
            made matches Some(canvas) ==> {
                &&& canvas.wf()
                &&& canvas.width() == width
                &&& canvas.height() == height
                &&& canvas@ == data@
                &&& forall|x: int, y: int| canvas.writes(x, y) == 0
            },
    {
        match raster_from_raw(width, height, data) {
            Some(raster) => Some(Canvas { raster, writes: Ghost(Map::empty()) }),
            None => None,
        }
    }

    /// Gives up the canvas for its row-major block of intensities.
    pub fn into_raw(self) -> (data: Vec<u8>)
        ensures
            data@ == self@,
    {
        raster_into_raw(self.raster)
    }

    /// Width and height of the image in pixels.
    pub fn dimensions(&self) -> (size: (u32, u32))
        ensures
            size.0 == self.width(),
            size.1 == self.height(),
    {
        raster_dimensions(&self.raster)
    }

    /// The intensity of pixel `(x, y)`, or `None` outside the image.
    pub fn get_pixel(&self, x: u32, y: u32) -> (found: Option<u8>)
        ensures
            found == if self.contains(x as int, y as int) {
                Some(self.pixel(x as int, y as int))
            } else {
                None
            },
    {
        let (width, height) = raster_dimensions(&self.raster);
        if x < width && y < height {
            Some(raster_get_pixel(&self.raster, x, y))
        } else {
            None
        }
    }

    /// Writes `intensity` to pixel `(x, y)`: that pixel changes and is counted
    /// as written once more, every other pixel keeps its intensity and count.
    pub fn put_pixel(&mut self, x: u32, y: u32, intensity: u8)
        requires
            old(self).wf(),
            old(self).contains(x as int, y as int),
        ensures
            final(self).wf(),
            final(self).same_frame(*old(self)),
            final(self)@ == old(self)@.update(y * old(self).width() + x, intensity),
            final(self).pixel(x as int, y as int) == intensity,
            final(self).writes(x as int, y as int) == old(self).writes(x as int, y as int) + 1,
            forall|a: int, b: int|
                old(self).contains(a, b) && (a, b) != (x as int, y as int)
                    ==> #[trigger] final(self).pixel(a, b) == old(self).pixel(a, b),
            forall|a: int, b: int|
                (a, b) != (x as int, y as int)
                    ==> #[trigger] final(self).writes(a, b) == old(self).writes(a, b),
    {
        let ghost width = self.width() as int;
        let ghost height = self.height() as int;
        proof {
            lemma_pixel_index(width, height, x as int, y as int);
        }
        raster_put_pixel(&mut self.raster, x, y, intensity);
        proof {
            let count = self.writes(x as int, y as int) + 1;
            self.writes@ = self.writes@.insert((x as int, y as int), count);
            assert forall|a: int, b: int|
                old(self).contains(a, b) && (a, b) != (x as int, y as int)
                implies #[trigger] self.pixel(a, b) == old(self).pixel(a, b) by {
                lemma_pixel_index(width, height, a, b);
            }
        }
    }
}

} // verus!
