//! 8-bit RGB images as plain values, with the two `image` operations the
//! mosaic needs: Lanczos resampling and pasting one image into another.
use vstd::prelude::*;

verus! {

/// A `width` by `height` RGB image, row-major, three bytes per pixel.
#[derive(Clone, Debug)]
pub struct Image {
    pub width: u32,
    pub height: u32,
    pub pixels: Vec<u8>,
}

/// Index of channel `c` of pixel `(x, y)` in a row-major RGB buffer `width` pixels wide.
pub open spec fn pixel_index(width: int, x: int, y: int, c: int) -> int {
    (y * width + x) * 3 + c
}

/// Byte `i` of `canvas` (`width` pixels wide) after a `tw` by `th` image `tile`
/// has been written over it with its top-left corner at `(x, y)`.
pub open spec fn pasted_byte(
    canvas: Seq<u8>,
    width: int,
    tile: Seq<u8>,
    tw: int,
    th: int,
    x: int,
    y: int,
    i: int,
) -> u8 {
    let p = i / 3;
    let c = i % 3;
    let px = p % width;
    let py = p / width;
    if x <= px < x + tw && y <= py < y + th {
        tile[pixel_index(tw, px - x, py - y, c)]
    } else {
        canvas[i]
    }
}

pub open spec fn pasted(
    canvas: Seq<u8>,
    width: int,
    tile: Seq<u8>,
    tw: int,
    th: int,
    x: int,
    y: int,
) -> Seq<u8> {
    Seq::new(canvas.len(), |i: int| pasted_byte(canvas, width, tile, tw, th, x, y, i))
}

/// What Lanczos3 resampling makes of a `width` by `height` RGB buffer at
/// `new_width` by `new_height`.
pub uninterp spec fn lanczos3_resized(
    pixels: Seq<u8>,
    width: u32,
    height: u32,
    new_width: u32,
    new_height: u32,
) -> Seq<u8>;

impl Image {
    pub open spec fn wf(&self) -> bool {
        self.pixels@.len() == self.width * self.height * 3
    }

    /// Channel `c` of pixel `(x, y)`.
    pub open spec fn at(&self, x: int, y: int, c: int) -> u8 {
        self.pixels@[pixel_index(self.width as int, x, y, c)]
    }

    /// The image resampled to exactly `new_width` by `new_height` pixels with
    /// a 3-lobe Lanczos filter, whatever its aspect ratio.
    pub fn resized(&self, new_width: u32, new_height: u32) -> (r: Image)
        requires
            self.wf(),
            new_width * new_height * 3 <= usize::MAX,
        ensures
            r.wf(),
            r.width == new_width,
            r.height == new_height,
            r.pixels@ == lanczos3_resized(self.pixels@, self.width, self.height, new_width, new_height),
    {
        let pixels = lanczos3(self, new_width, new_height);
        Image { width: new_width, height: new_height, pixels }
    }

    /// Overwrites the rectangle of `tile`'s size at `(x, y)` with `tile`'s pixels.
    pub fn paste(&mut self, tile: &Image, x: u32, y: u32)
        requires
            old(self).wf(),
            tile.wf(),
            x + tile.width <= old(self).width,
            y + tile.height <= old(self).height,
        ensures
            final(self).wf(),
            final(self).width == old(self).width,
            final(self).height == old(self).height,
            final(self).pixels@ == pasted(
                old(self).pixels@,
                old(self).width as int,
                tile.pixels@,
                tile.width as int,
                tile.height as int,
                x as int,
                y as int,
            ),
    {
        replace_at(self, tile, x, y);
    }
}

/// Relies on `image::imageops::resize` with `FilterType::Lanczos3`: the result
/// is `new_width` by `new_height` RGB pixels and depends on the source alone.
#[verifier::external_body]
fn lanczos3(img: &Image, new_width: u32, new_height: u32) -> (r: Vec<u8>)
    requires
        img.wf(),
        new_width * new_height * 3 <= usize::MAX,
    ensures
        r@.len() == new_width * new_height * 3,
        r@ == lanczos3_resized(img.pixels@, img.width, img.height, new_width, new_height),
{
    let src = image::RgbImage::from_raw(img.width, img.height, img.pixels.clone()).unwrap();
    image::imageops::resize(&src, new_width, new_height, image::imageops::FilterType::Lanczos3)
        .into_raw()
}

/// Relies on `image::imageops::replace`: with `top` wholly inside `bottom`,
/// each pixel of `top` is copied to `bottom` at offset `(x, y)` and every
/// other pixel of `bottom` is left as it was.
#[verifier::external_body]
fn replace_at(bottom: &mut Image, top: &Image, x: u32, y: u32)
    requires
        old(bottom).wf(),
        top.wf(),
        x + top.width <= old(bottom).width,
        y + top.height <= old(bottom).height,
    ensures
        final(bottom).width == old(bottom).width,
        final(bottom).height == old(bottom).height,
        final(bottom).pixels@ == pasted(
            old(bottom).pixels@,
            old(bottom).width as int,
            top.pixels@,
            top.width as int,
            top.height as int,
            x as int,
            y as int,
        ),
{
    let raw = std::mem::take(&mut bottom.pixels);
    let mut canvas = image::RgbImage::from_raw(bottom.width, bottom.height, raw).unwrap();
    let tile = image::RgbImage::from_raw(top.width, top.height, top.pixels.clone()).unwrap();
    image::imageops::replace(&mut canvas, &tile, x as i64, y as i64);
    bottom.pixels = canvas.into_raw();
}

} // verus!
