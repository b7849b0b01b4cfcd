use vstd::prelude::*;

verus! {

/// Bytes of one pixel: red, green and blue.
pub const BYTES_PER_PIXEL: usize = 3;

/// What a loaded image holds: its size in pixels and its bytes, row by row
/// from the top, `BYTES_PER_PIXEL` per pixel.
pub ghost struct RgbImage {
    pub width: nat,
    pub height: nat,
    pub data: Seq<u8>,
}

impl RgbImage {
    pub open spec fn wf(self) -> bool {
        &&& self.width > 0
        &&& self.height > 0
        &&& self.data.len() == BYTES_PER_PIXEL * self.width * self.height
    }

    /// Where pixel `(i, j)` begins in the bytes.
    pub open spec fn offset(self, i: int, j: int) -> int {
        BYTES_PER_PIXEL * (j * self.width + i)
    }

    /// The colour of pixel `(i, j)`, column `i` of row `j`.
    pub open spec fn pixel(self, i: int, j: int) -> (u8, u8, u8) {
        let o = self.offset(i, j);
        (self.data[o], self.data[o + 1], self.data[o + 2])
    }
}

/// The colour shown where no image could be had.
pub open spec fn missing_color() -> (u8, u8, u8) {
    (0, 255, 255)
}

pub open spec fn min(a: int, b: int) -> int {
    if a < b {
        a
    } else {
        b
    }
}

/// A texture read from a decoded image. Where the image could not be loaded
/// it holds none and shows one fixed colour everywhere.
pub struct ImageTexture {
    width: usize,
    height: usize,
    data: Vec<u8>,
    loaded: bool,
}

impl View for ImageTexture {
    type V = Option<RgbImage>;

    closed spec fn view(&self) -> Option<RgbImage> {
        if self.loaded {
            Some(RgbImage { width: self.width as nat, height: self.height as nat, data: self.data@ })
        } else {
            None
        }
    }
}

impl ImageTexture {
    /// The image, where there is one, is well formed.
    pub closed spec fn wf(&self) -> bool {
        self.loaded ==> self@->Some_0.wf()
    }

    /// A texture with no image.
    pub fn empty() -> (r: ImageTexture)
        ensures
            r.wf(),
            r@ is None,
    {
        ImageTexture { width: 0, height: 0, data: Vec::new(), loaded: false }
    }

    /// A texture over a decoded image of `width` by `height` pixels with
    /// `depth` bytes each. Only three-byte pixels are read, and `data` must
    /// hold every pixel: otherwise the texture has no image.
    pub fn from_pixels(width: usize, height: usize, depth: usize, data: Vec<u8>) -> (r: ImageTexture)
        ensures
            r.wf(),
            depth == BYTES_PER_PIXEL && width > 0 && height > 0 && data@.len() == BYTES_PER_PIXEL
                * width * height ==> r@ == Some(
                RgbImage { width: width as nat, height: height as nat, data: data@ },
            ),
            !(depth == BYTES_PER_PIXEL && width > 0 && height > 0 && data@.len() == BYTES_PER_PIXEL
                * width * height) ==> r@ is None,
    {
        if depth != BYTES_PER_PIXEL || width == 0 || height == 0 {
            return ImageTexture::empty();
        }
        let len = data.len();
        let row = width.checked_mul(BYTES_PER_PIXEL);
        let bytes = match row {
            Some(row) => row.checked_mul(height),
            None => None,
        };
        match bytes {
            Some(bytes) if bytes == len => {
                assert(data@.len() == BYTES_PER_PIXEL * width * height) by (nonlinear_arith)
                    requires
                        bytes == width * BYTES_PER_PIXEL * height,
                        data@.len() == bytes,
                ;
                let r = ImageTexture { width, height, data, loaded: true };
                assert(r@ =~= Some(RgbImage { width: width as nat, height: height as nat, data: r.data@ }));
                r
            },
            _ => {
                proof {
                    if data@.len() == BYTES_PER_PIXEL * width * height {
                        assert(width * BYTES_PER_PIXEL * height == data@.len()) by (nonlinear_arith)
                            requires
                                data@.len() == BYTES_PER_PIXEL * width * height,
                        ;
                        assert(width * BYTES_PER_PIXEL <= width * BYTES_PER_PIXEL * height)
                            by (nonlinear_arith)
                            requires
                                height >= 1,
                        ;
                    }
                }
                ImageTexture::empty()
            },
        }
    }

    /// The image's width and height in pixels, where it has one.
    pub fn dimensions(&self) -> (r: Option<(usize, usize)>)
        requires
            self.wf(),
        ensures
            self@ is None ==> r is None,
            self@ is Some ==> r == Some(
                (self@->Some_0.width as usize, self@->Some_0.height as usize),
            ),
    {
        if self.loaded {
            Some((self.width, self.height))
        } else {
            None
        }
    }

    /// The colour of pixel `(i, j)`, counted from the top left; a position
    /// past the last column or row reads the last one.
    pub fn texel(&self, i: usize, j: usize) -> (r: (u8, u8, u8))
        requires
            self.wf(),
        ensures
            self@ is None ==> r == missing_color(),
            self@ matches Some(img) ==> r == img.pixel(
                min(i as int, img.width - 1),
                min(j as int, img.height - 1),
            ),
    {
        if !self.loaded {
            return (0, 255, 255);
        }
        let i = if i < self.width { i } else { self.width - 1 };
        let j = if j < self.height { j } else { self.height - 1 };
        let w = self.width;
        let h = self.height;
        let len = self.data.len();
        proof {
            assert(j * w + i < w * h && BYTES_PER_PIXEL * (j * w + i) + 2 < BYTES_PER_PIXEL * w * h)
                by (nonlinear_arith)
                requires
                    i < w,
                    j < h,
            ;
            assert(BYTES_PER_PIXEL * w * h == 3 * (w * h)) by (nonlinear_arith);
        }
        let pixel = BYTES_PER_PIXEL * (j * w + i);
        (self.data[pixel], self.data[pixel + 1], self.data[pixel + 2])
    }
}

} // verus!
