use vstd::prelude::*;

use crate::color::{Pixel, Rgb8};
use crate::grid::{order, Direction};

verus! {

/// A `width` by `height` image, its pixels in row-major order: the pixel at
/// column `x` and row `y` has id `y * width + x`.
#[derive(Debug)]
pub struct ImageData {
    pub width: usize,
    pub height: usize,
    pub data: Vec<Pixel>,
}

/// The colour held by bytes `3 * i .. 3 * i + 3` of an interleaved RGB
/// buffer.
pub open spec fn rgb_at(bytes: Seq<u8>, i: int) -> Rgb8 {
    Rgb8 { r: bytes[3 * i], g: bytes[3 * i + 1], b: bytes[3 * i + 2] }
}

impl ImageData {
    /// One pixel per position, each with its derived HSL triple.
    pub open spec fn wf(&self) -> bool {
        &&& self.data@.len() == self.width * self.height
        &&& forall|i: int| 0 <= i < self.data@.len() ==> (#[trigger] self.data@[i]).wf()
    }

    /// Builds an image from an interleaved RGB buffer, three bytes per
    /// pixel in row-major order, deriving each pixel's HSL triple once.
    /// Gives none when the buffer does not hold exactly `width * height`
    /// pixels.
    pub fn from_rgb(width: usize, height: usize, bytes: &Vec<u8>) -> (r: Option<ImageData>)
        ensures
            r is Some <==> width * height * 3 == bytes@.len(),
            r matches Some(img) ==> {
                &&& img.wf()
                &&& img.width == width
                &&& img.height == height
                &&& forall|i: int|
                    0 <= i < img.data@.len() ==> (#[trigger] img.data@[i]).rgb == rgb_at(bytes@, i)
            },
    {
        let blen = bytes.len();
        let n = match width.checked_mul(height) {
            Some(n) => n,
            None => {
                assert(width * height * 3 > usize::MAX) by (nonlinear_arith)
                    requires
                        width * height > usize::MAX,
                ;
                return None;
            },
        };
        let total = match n.checked_mul(3) {
            Some(t) => t,
            None => return None,
        };
        if blen != total {
            return None;
        }
        let mut data: Vec<Pixel> = Vec::new();
        let mut i: usize = 0;
        while i < n
            invariant
                n == width * height,
                bytes@.len() == 3 * n,
                total == 3 * n,
                i <= n,
                data@.len() == i,
                forall|j: int|
                    0 <= j < i ==> (#[trigger] data@[j]).wf() && data@[j].rgb == rgb_at(bytes@, j),
            decreases n - i,
        {
            let p = Pixel::new(bytes[3 * i], bytes[3 * i + 1], bytes[3 * i + 2]);
            data.push(p);
            i = i + 1;
        }
        Some(ImageData { width, height, data })
    }

    /// The image as an interleaved RGB buffer, three bytes per pixel in
    /// row-major order.
    pub fn to_rgb(&self) -> (bytes: Vec<u8>)
        requires
            self.data@.len() * 3 <= usize::MAX,
        ensures
            bytes@.len() == 3 * self.data@.len(),
            forall|i: int| 0 <= i < self.data@.len() ==> rgb_at(bytes@, i) == (#[trigger] self.data@[i]).rgb,
    {
        let mut bytes: Vec<u8> = Vec::new();
        let mut i: usize = 0;
        while i < self.data.len()
            invariant
                self.data@.len() * 3 <= usize::MAX,
                i <= self.data@.len(),
                bytes@.len() == 3 * i,
                forall|j: int| 0 <= j < i ==> rgb_at(bytes@, j) == (#[trigger] self.data@[j]).rgb,
            decreases self.data@.len() - i,
        {
            let c = self.data[i].rgb;
            bytes.push(c.r);
            bytes.push(c.g);
            bytes.push(c.b);
            proof {
                assert forall|j: int| 0 <= j < i + 1 implies rgb_at(bytes@, j) == (
                #[trigger] self.data@[j]).rgb by {
                    if j < i {
                        assert(rgb_at(bytes@, j) == rgb_at(bytes@.subrange(0, 3 * i), j));
                    }
                }
            }
            i = i + 1;
        }
        bytes
    }
}

/// The pixels of `data` in the order in which the walk in direction `dir`
/// visits them.
pub open spec fn walk_seq(data: Seq<Pixel>, w: nat, h: nat, dir: Direction) -> Seq<Pixel> {
    Seq::new(w * h, |k: int| data[order(w, h, dir, k)])
}

} // verus!
