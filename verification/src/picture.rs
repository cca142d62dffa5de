//! The map picture as plain RGBA bytes: decoding it with the `image` crate,
//! reading a pixel's colour and painting traced pixels white.

use vstd::prelude::*;
use crate::geo_coder::Point;

verus! {

/// What `image::load_from_memory` followed by `to_rgba8` and `into_raw`
/// makes of `bytes`: width, height and RGBA bytes row by row; `None` when
/// the bytes are not a picture the crate can decode.
pub uninterp spec fn decoded_picture(bytes: Seq<u8>) -> Option<(u32, u32, Seq<u8>)>;

/// Decodes `bytes` with `image::load_from_memory` (the format is guessed from
/// the bytes) and converts the result to 8-bit RGBA with `to_rgba8`. The
/// contract claims that the result is a function of the bytes alone and that
/// the RGBA buffer holds four bytes per pixel, as `ImageBuffer::new` in
/// `to_rgba8` allocates it; what the decoders compute goes unstated.
#[verifier::external_body]
fn load_rgba(bytes: &[u8]) -> (r: Option<(u32, u32, Vec<u8>)>)
    ensures
        match decoded_picture(bytes@) {
            None => r is None,
            Some((w, h, px)) => r matches Some((rw, rh, rpx)) && rw == w && rh == h && rpx@ == px
                && px.len() == 4 * w * h,
        },
{
    match image::load_from_memory(bytes) {
        Ok(img) => {
            let rgba = img.to_rgba8();
            Some((rgba.width(), rgba.height(), rgba.into_raw()))
        },
        Err(_) => None,
    }
}

/// A decoded picture: `width` by `height` pixels, four bytes (red, green,
/// blue, alpha) each, row by row.
pub struct Picture {
    pub width: u32,
    pub height: u32,
    pub rgba: Vec<u8>,
}

/// The position of pixel `(x, y)` in a picture `width` pixels wide.
pub open spec fn pixel_index(width: int, x: int, y: int) -> int {
    y * width + x
}

/// Whether `bytes[i]` belongs to one of the `pixels` of a picture `width`
/// pixels wide.
pub open spec fn in_pixels(width: int, pixels: Seq<Point>, i: int) -> bool {
    exists|j: int|
        0 <= j < pixels.len() && #[trigger] pixel_index(width, pixels[j].0 as int, pixels[j].1 as int)
            == i / 4
}

impl Picture {
    /// The buffer holds four bytes for every pixel.
    pub open spec fn wf(&self) -> bool {
        self.rgba@.len() == 4 * self.width * self.height
    }

    /// Decodes `bytes` into a picture; `None` when they are not a picture the
    /// `image` crate can decode.
    pub fn decode(bytes: &[u8]) -> (r: Option<Picture>)
        ensures
            match decoded_picture(bytes@) {
                None => r is None,
                Some((w, h, px)) => r matches Some(p) && p.width == w && p.height == h && p.rgba@
                    == px,
            },
            r matches Some(p) ==> p.wf(),
    {
        match load_rgba(bytes) {
            Some((width, height, rgba)) => Some(Picture { width, height, rgba }),
            None => None,
        }
    }

    /// The colour of pixel `(x, y)`.
    pub fn pixel(&self, x: u32, y: u32) -> (r: [u8; 4])
        requires
            self.wf(),
            x < self.width,
            y < self.height,
        ensures
            forall|c: int|
                0 <= c < 4 ==> r@[c] == self.rgba@[4 * pixel_index(self.width as int, x as int, y as int) + c],
    {
        let i = self.offset(x, y);
        [self.rgba[i], self.rgba[i + 1], self.rgba[i + 2], self.rgba[i + 3]]
    }

    /// The index of the first byte of pixel `(x, y)`.
    fn offset(&self, x: u32, y: u32) -> (r: usize)
        requires
            self.wf(),
            x < self.width,
            y < self.height,
        ensures
            r == 4 * pixel_index(self.width as int, x as int, y as int),
            r + 4 <= self.rgba@.len(),
    {
        let len = self.rgba.len();
        proof {
            let (xi, yi, wi, hi) = (x as int, y as int, self.width as int, self.height as int);
            assert(4 * (yi * wi + xi) + 4 <= 4 * wi * hi) by (nonlinear_arith)
                requires
                    0 <= xi < wi,
                    0 <= yi < hi,
            ;
            assert(0 <= yi * wi <= yi * wi + xi) by (nonlinear_arith)
                requires
                    0 <= xi,
                    0 <= yi,
                    0 <= wi,
            ;
        }
        4 * ((y as usize) * (self.width as usize) + (x as usize))
    }

    /// Paints each of `pixels` white (all four bytes 255); every other byte
    /// stays as it was.
    pub fn paint_white(&mut self, pixels: &Vec<Point>)
        requires
            old(self).wf(),
            forall|j: int|
                0 <= j < pixels@.len() ==> 0 <= #[trigger] pixels@[j].0 < old(self).width && 0
                    <= pixels@[j].1 < old(self).height,
        ensures
            final(self).width == old(self).width,
            final(self).height == old(self).height,
            final(self).rgba@.len() == old(self).rgba@.len(),
            forall|i: int|
                0 <= i < old(self).rgba@.len() ==> #[trigger] final(self).rgba@[i] == if in_pixels(
                    old(self).width as int,
                    pixels@,
                    i,
                ) {
                    255u8
                } else {
                    old(self).rgba@[i]
                },
    {
        let ghost w = self.width as int;
        let mut k: usize = 0;
        while k < pixels.len()
            invariant
                k <= pixels@.len(),
                self.width == old(self).width,
                self.height == old(self).height,
                self.wf(),
                self.rgba@.len() == old(self).rgba@.len(),
                w == self.width,
                forall|j: int|
                    0 <= j < pixels@.len() ==> 0 <= #[trigger] pixels@[j].0 < old(self).width && 0
                        <= pixels@[j].1 < old(self).height,
                forall|i: int|
                    0 <= i < old(self).rgba@.len() ==> #[trigger] self.rgba@[i] == if in_pixels(
                        w,
                        pixels@.take(k as int),
                        i,
                    ) {
                        255u8
                    } else {
                        old(self).rgba@[i]
                    },
            decreases pixels@.len() - k,
        {
            let p = pixels[k];
            let start = self.offset(p.0 as u32, p.1 as u32);
            let ghost before = self.rgba@;
            self.rgba.set(start, 255);
            self.rgba.set(start + 1, 255);
            self.rgba.set(start + 2, 255);
            self.rgba.set(start + 3, 255);
            proof {
                let grown = pixels@.take(k + 1);
                let prev = pixels@.take(k as int);
                let pi = pixel_index(w, p.0 as int, p.1 as int);
                assert(grown[k as int] == p);
                assert forall|i: int| 0 <= i < old(self).rgba@.len() implies #[trigger] self.rgba@[i]
                    == if in_pixels(w, grown, i) {
                    255u8
                } else {
                    old(self).rgba@[i]
                } by {
                    if start <= i < start + 4 {
                        assert(i / 4 == pi);
                        assert(pixel_index(w, grown[k as int].0 as int, grown[k as int].1 as int) == i / 4);
                        assert(in_pixels(w, grown, i));
                    } else {
                        assert(self.rgba@[i] == before[i]);
                        assert(i / 4 != pi);
                        if in_pixels(w, grown, i) {
                            let j = choose|j: int|
                                0 <= j < grown.len() && #[trigger] pixel_index(
                                    w,
                                    grown[j].0 as int,
                                    grown[j].1 as int,
                                ) == i / 4;
                            assert(j != k);
                            assert(grown[j] == prev[j]);
                            assert(in_pixels(w, prev, i));
                        } else {
                            if in_pixels(w, prev, i) {
                                let j = choose|j: int|
                                    0 <= j < prev.len() && #[trigger] pixel_index(
                                        w,
                                        prev[j].0 as int,
                                        prev[j].1 as int,
                                    ) == i / 4;
                                assert(grown[j] == prev[j]);
                            }
                        }
                    }
                }
            }
            k = k + 1;
        }
        assert(pixels@.take(pixels@.len() as int) =~= pixels@);
    }
}

} // verus!
