use vstd::prelude::*;

verus! {

/// Why a byte stream was rejected by the decoder.
#[derive(Clone, Copy, PartialEq, Eq, Structural, Debug)]
pub enum DecodeErrorKind {
    /// The first four bytes are not the format's magic.
    InvalidMagic,
    /// The header's channel count is not 3 or 4, or a dimension is zero.
    InvalidHeader,
    /// The stream ends in the middle of the header or of an opcode.
    UnexpectedEof,
    /// All pixels were decoded but the eight trailer bytes do not match.
    MissingEndMarker,
    /// The stream ends before the declared number of pixels is reached.
    TruncatedStream,
}

/// A decoding failure, carrying the byte offset at which it was detected.
#[derive(Clone, Copy, PartialEq, Eq, Structural, Debug)]
pub struct ImageDecodeError {
    pub position: usize,
    pub kind: DecodeErrorKind,
}

/// Contains the data of an image.
#[derive(Debug)]
pub struct Image {
    /// The width of the image.
    pub width: usize,
    /// The height of the image.
    pub height: usize,
    /// The number of channels per pixel (3 for RGB, 4 for RGBA).
    pub stride: usize,
    /// The underlying pixel data of the image, row-major.
    pub pixels: Vec<u8>,
}

impl Image {
    /// A well-formed image: positive dimensions, 3 or 4 channels, and storage
    /// holding exactly one byte per channel of every pixel.
    pub open spec fn wf(&self) -> bool {
        &&& 0 < self.width
        &&& 0 < self.height
        &&& (self.stride == 3 || self.stride == 4)
        &&& self.pixels@.len() == self.width * self.height * self.stride
    }

    /// Creates a new empty image. `stride` is the number of channels per pixel
    /// (3 for RGB, 4 for RGBA).
    pub fn new(width: usize, height: usize, stride: usize) -> (img: Image)
        requires
            width * height <= usize::MAX,
            width * height * stride <= usize::MAX,
        ensures
            img.width == width,
            img.height == height,
            img.stride == stride,
            img.pixels@ == Seq::<u8>::empty(),
    {
        Image { width, height, stride, pixels: Vec::with_capacity(width * height * stride) }
    }

    /// Creates a new image from a pre-existing pixel array. `stride` is the
    /// number of channels per pixel (3 for RGB, 4 for RGBA).
    pub fn from(pixels: Vec<u8>, width: usize, stride: usize) -> (img: Image)
        requires
            0 < width,
            0 < stride,
        ensures
            img.width == width,
            img.height == pixels@.len() as int / stride as int / width as int,
            img.stride == stride,
            img.pixels@ == pixels@,
    {
        let n_pixels = pixels.len() / stride;
        let height = n_pixels / width;
        Image { width, height, stride, pixels }
    }

    /// Gets a reference to the bytes of a pixel. The length of the slice will
    /// be equal to the stride of the image.
    pub fn get_pixel(&self, x: usize, y: usize) -> (px: &[u8])
        requires
            self.wf(),
            x < self.width,
            y < self.height,
        ensures
            px@ == self.pixels@.subrange(
                (y * self.width + x) * self.stride,
                (y * self.width + x) * self.stride + self.stride,
            ),
    {
        let n = self.pixels.len();
        proof {
            lemma_pixel_index_bound(
                self.width as int,
                self.height as int,
                self.stride as int,
                x as int,
                y as int,
            );
        }
        let index = ((y * self.width) + x) * self.stride;
        vstd::slice::slice_subrange(self.pixels.as_slice(), index, index + self.stride)
    }

    /// Overwrites the bytes of a pixel; `pixel` holds one byte per channel.
    /// This is the mutating counterpart of `get_pixel`.
    pub fn get_pixel_mut(&mut self, x: usize, y: usize, pixel: &[u8])
        requires
            old(self).wf(),
            x < old(self).width,
            y < old(self).height,
            pixel@.len() == old(self).stride,
        ensures
            final(self).width == old(self).width,
            final(self).height == old(self).height,
            final(self).stride == old(self).stride,
            final(self).pixels@.len() == old(self).pixels@.len(),
            forall|c: int|
                0 <= c < old(self).stride ==> final(self).pixels@[(y * old(self).width + x) * old(
                    self,
                ).stride + c] == pixel@[c],
            forall|j: int|
                0 <= j < old(self).pixels@.len() && !((y * old(self).width + x) * old(self).stride
                    <= j < (y * old(self).width + x) * old(self).stride + old(self).stride)
                    ==> final(self).pixels@[j] == old(self).pixels@[j],
    {
        let n = self.pixels.len();
        proof {
            lemma_pixel_index_bound(
                self.width as int,
                self.height as int,
                self.stride as int,
                x as int,
                y as int,
            );
        }
        let index = ((y * self.width) + x) * self.stride;
        let mut c: usize = 0;
        while c < self.stride
            invariant
                self.wf(),
                index == (y * self.width + x) * self.stride,
                index + self.stride <= self.pixels@.len(),
                c <= self.stride,
                pixel@.len() == self.stride,
                self.width == old(self).width,
                self.height == old(self).height,
                self.stride == old(self).stride,
                self.pixels@.len() == old(self).pixels@.len(),
                self.pixels@.len() <= usize::MAX,
                forall|k: int| 0 <= k < c ==> self.pixels@[index + k] == pixel@[k],
                forall|j: int|
                    0 <= j < self.pixels@.len() && !(index <= j < index + c) ==> self.pixels@[j]
                        == old(self).pixels@[j],
            decreases self.stride - c,
        {
            self.pixels[index + c] = pixel[c];
            c = c + 1;
        }
    }
}

/// The byte range of pixel (x, y) lies inside well-formed storage.
pub proof fn lemma_pixel_index_bound(w: int, h: int, s: int, x: int, y: int)
    requires
        0 <= x < w,
        0 <= y < h,
        0 < s,
    ensures
        0 <= (y * w + x) * s,
        (y * w + x) * s + s <= w * h * s,
        y * w + x < w * h,
        y * w + x <= (y * w + x) * s,
        w * h <= w * h * s,
{
    assert((y * w + x) * s >= 0 && (y * w + x) * s + s <= w * h * s && y * w + x < w * h && y * w
        + x <= (y * w + x) * s && w * h <= w * h * s)
        by (nonlinear_arith)
        requires
            0 <= x < w,
            0 <= y < h,
            0 < s,
    ;
}

} // verus!
