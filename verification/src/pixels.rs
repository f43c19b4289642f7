//! Rotating a decoded photo by the rotation the library stores for it, with
//! the `image` crate's quarter-turn operations.
use vstd::prelude::*;

verus! {

/// An RGBA image: its width and height in pixels and its bytes, row by
/// row, four per pixel.
#[derive(Debug)]
pub struct RgbaPixels {
    pub width: u32,
    pub height: u32,
    pub data: Vec<u8>,
}

impl RgbaPixels {
    /// The bytes are exactly the pixels.
    pub open spec fn wf(&self) -> bool {
        self.data@.len() == 4 * self.width * self.height
    }
}

/// Channel `k` of the pixel at column `x`, row `y` of an image `width`
/// pixels wide.
pub open spec fn byte_at(data: Seq<u8>, width: int, x: int, y: int, k: int) -> u8 {
    data[(y * width + x) * 4 + k]
}

/// `dst` is `src` (`w` by `h`) turned a quarter clockwise: `h` by `w`, the
/// pixel at `(x, y)` moving to `(h - 1 - y, x)`.
pub open spec fn is_quarter_turn_of(src: Seq<u8>, w: int, h: int, dst: Seq<u8>) -> bool {
    &&& dst.len() == src.len()
    &&& forall|x: int, y: int, k: int|
        0 <= x < w && 0 <= y < h && 0 <= k < 4 ==> byte_at(dst, h, h - 1 - y, x, k) == #[trigger] byte_at(
            src,
            w,
            x,
            y,
            k,
        )
}

/// `dst` is `src` (`w` by `h`) turned half round: the pixel at `(x, y)`
/// moving to `(w - 1 - x, h - 1 - y)`.
pub open spec fn is_half_turn_of(src: Seq<u8>, w: int, h: int, dst: Seq<u8>) -> bool {
    &&& dst.len() == src.len()
    &&& forall|x: int, y: int, k: int|
        0 <= x < w && 0 <= y < h && 0 <= k < 4 ==> byte_at(dst, w, w - 1 - x, h - 1 - y, k)
            == #[trigger] byte_at(src, w, x, y, k)
}

/// `dst` is `src` (`w` by `h`) turned three quarters clockwise: `h` by `w`,
/// the pixel at `(x, y)` moving to `(y, w - 1 - x)`.
pub open spec fn is_three_quarter_turn_of(src: Seq<u8>, w: int, h: int, dst: Seq<u8>) -> bool {
    &&& dst.len() == src.len()
    &&& forall|x: int, y: int, k: int|
        0 <= x < w && 0 <= y < h && 0 <= k < 4 ==> byte_at(dst, h, y, w - 1 - x, k) == #[trigger] byte_at(
            src,
            w,
            x,
            y,
            k,
        )
}

/// `image::imageops::rotate90` of the RGBA image with these dimensions and
/// bytes (`RgbaImage::from_raw`, then `into_raw`): the image turned a
/// quarter clockwise, as its loop puts each pixel `(x, y)` at
/// `(height - 1 - y, x)` of a `height` by `width` buffer.
#[verifier::external_body]
fn rotate90_bytes(width: u32, height: u32, data: Vec<u8>) -> (out: Vec<u8>)
    requires
        data@.len() == 4 * width * height,
    ensures
        is_quarter_turn_of(data@, width as int, height as int, out@),
{
    match image::RgbaImage::from_raw(width, height, data) {
        Some(img) => image::imageops::rotate90(&img).into_raw(),
        None => Vec::new(),
    }
}

/// `image::imageops::rotate180` of the RGBA image with these dimensions and
/// bytes: each pixel `(x, y)` put at `(width - 1 - x, height - 1 - y)`.
#[verifier::external_body]
fn rotate180_bytes(width: u32, height: u32, data: Vec<u8>) -> (out: Vec<u8>)
    requires
        data@.len() == 4 * width * height,
    ensures
        is_half_turn_of(data@, width as int, height as int, out@),
{
    match image::RgbaImage::from_raw(width, height, data) {
        Some(img) => image::imageops::rotate180(&img).into_raw(),
        None => Vec::new(),
    }
}

/// `image::imageops::rotate270` of the RGBA image with these dimensions and
/// bytes: each pixel `(x, y)` put at `(y, width - 1 - x)` of a `height` by
/// `width` buffer.
#[verifier::external_body]
fn rotate270_bytes(width: u32, height: u32, data: Vec<u8>) -> (out: Vec<u8>)
    requires
        data@.len() == 4 * width * height,
    ensures
        is_three_quarter_turn_of(data@, width as int, height as int, out@),
{
    match image::RgbaImage::from_raw(width, height, data) {
        Some(img) => image::imageops::rotate270(&img).into_raw(),
        None => Vec::new(),
    }
}

/// A decoded photo turned by its stored rotation (taken modulo 360): a
/// quarter, half or three-quarter turn clockwise for 90, 180 and 270, the
/// photo as it is otherwise.
pub fn rotate_image(image: RgbaPixels, rotation: i32) -> (out: RgbaPixels)
    requires
        image.wf(),
    ensures
        out.wf(),
        rotation % 360 == 90 ==> out.width == image.height && out.height == image.width
            && is_quarter_turn_of(image.data@, image.width as int, image.height as int, out.data@),
        rotation % 360 == 180 ==> out.width == image.width && out.height == image.height && is_half_turn_of(
            image.data@,
            image.width as int,
            image.height as int,
            out.data@,
        ),
        rotation % 360 == 270 ==> out.width == image.height && out.height == image.width
            && is_three_quarter_turn_of(image.data@, image.width as int, image.height as int, out.data@),
        rotation % 360 != 90 && rotation % 360 != 180 && rotation % 360 != 270 ==> out.width == image.width
            && out.height == image.height && out.data@ == image.data@,
{
    let turn = crate::library::normalized_rotation(rotation);
    let RgbaPixels { width, height, data } = image;
    if turn == 90 {
        let out = rotate90_bytes(width, height, data);
        assert(4 * width * height == 4 * height * width) by (nonlinear_arith);
        RgbaPixels { width: height, height: width, data: out }
    } else if turn == 180 {
        RgbaPixels { width, height, data: rotate180_bytes(width, height, data) }
    } else if turn == 270 {
        let out = rotate270_bytes(width, height, data);
        assert(4 * width * height == 4 * height * width) by (nonlinear_arith);
        RgbaPixels { width: height, height: width, data: out }
    } else {
        RgbaPixels { width, height, data }
    }
}

} // verus!
