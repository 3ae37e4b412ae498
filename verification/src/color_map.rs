use vstd::prelude::*;

use crate::obj_file::{ObjError, push_str};

verus! {

/// The image formats that a color map may be stored in.
#[derive(Clone, Copy, Debug, PartialEq, Eq, Structural)]
pub enum ImageKind {
    Png,
    Jpeg,
    Bmp,
}

/// The image that `bytes`, read as an image of the given kind, decodes to:
/// its width, its height, and its pixels as RGBA bytes row by row from the
/// top left; none where the bytes are no such image.
pub uninterp spec fn decoded_rgba(bytes: Seq<u8>, kind: ImageKind) -> Option<(u32, u32, Seq<u8>)>;

/// Decodes `bytes` as an image of the given kind and converts it to RGBA
/// (`image::load_from_memory_with_format`, then `DynamicImage::into_rgba8`):
/// claimed to depend on the bytes and the kind alone, and to hold at least
/// four bytes for each pixel (`ImageBuffer` is made only over such a buffer).
#[verifier::external_body]
fn decode_image(bytes: &[u8], kind: ImageKind) -> (r: Option<(u32, u32, Vec<u8>)>)
    ensures
        r matches Some(t) ==> decoded_rgba(bytes@, kind) == Some((t.0, t.1, t.2@)),
        r is None ==> decoded_rgba(bytes@, kind) is None,
        r matches Some(t) ==> t.2@.len() >= t.0 * t.1 * 4,
{
    let format = match kind {
        ImageKind::Png => image::ImageFormat::Png,
        ImageKind::Jpeg => image::ImageFormat::Jpeg,
        ImageKind::Bmp => image::ImageFormat::Bmp,
    };
    match image::load_from_memory_with_format(bytes, format) {
        Ok(img) => {
            let rgba = img.into_rgba8();
            Some((rgba.width(), rgba.height(), rgba.into_raw()))
        },
        Err(_) => None,
    }
}

/// The pixels of a color map, row by row from the top left, each as its red,
/// green, blue and alpha bytes.
pub struct ColorMapData {
    pub width: usize,
    pub height: usize,
    pub pixels: Vec<[u8; 4]>,
}

/// The pixel at position `k` of RGBA bytes.
pub open spec fn rgba_pixel(bytes: Seq<u8>, k: int) -> Seq<u8> {
    seq![bytes[4 * k], bytes[4 * k + 1], bytes[4 * k + 2], bytes[4 * k + 3]]
}

/// The message of a color map that could not be decoded.
pub open spec fn undecodable_message() -> Seq<char> {
    "load_color_map: the image could not be decoded"@
}

/// The color map of a `width` by `height` image whose pixels are given as
/// RGBA bytes, row by row from the top left: one pixel for each position,
/// from the first `width * height * 4` bytes.
pub fn color_map_from_rgba(width: u32, height: u32, raw: &[u8]) -> (d: ColorMapData)
    requires
        raw@.len() >= width * height * 4,
    ensures
        d.width == width,
        d.height == height,
        d.pixels@.len() == width * height,
        forall|k: int| 0 <= k < d.pixels@.len() ==> (#[trigger] d.pixels@[k])@ == rgba_pixel(raw@, k),
{
    let len = raw.len();
    assert((width as int) * (height as int) <= 0xffff_ffff * 0xffff_ffffint) by (nonlinear_arith)
        requires
            width <= 0xffff_ffff,
            height <= 0xffff_ffff,
    ;
    let count: u64 = (width as u64) * (height as u64);
    assert(count * 4 <= len);
    let n: usize = count as usize;
    let mut pixels: Vec<[u8; 4]> = Vec::new();
    let mut k: usize = 0;
    while k < n
        invariant
            k <= n,
            n * 4 <= len,
            len == raw@.len(),
            pixels@.len() == k,
            forall|q: int| 0 <= q < k ==> (#[trigger] pixels@[q])@ == rgba_pixel(raw@, q),
        decreases n - k,
    {
        let b = 4 * k;
        let p = [raw[b], raw[b + 1], raw[b + 2], raw[b + 3]];
        pixels.push(p);
        assert(pixels@[k as int]@ =~= rgba_pixel(raw@, k as int));
        k += 1;
    }
    ColorMapData { width: width as usize, height: height as usize, pixels }
}

/// The color map that the image in `bytes` holds: its size and its pixels,
/// row by row from the top left; an error where the bytes are no image of the
/// given kind.
pub fn color_map_data(bytes: &[u8], kind: ImageKind) -> (r: Result<ColorMapData, ObjError>)
    ensures
        decoded_rgba(bytes@, kind) is None ==> (r matches Err(ObjError::General(m)) && m@ == undecodable_message()),
        decoded_rgba(bytes@, kind) matches Some(t) ==> (r matches Ok(d) && {
            &&& d.width == t.0
            &&& d.height == t.1
            &&& d.pixels@.len() == t.0 * t.1
            &&& forall|k: int| 0 <= k < d.pixels@.len() ==> (#[trigger] d.pixels@[k])@ == rgba_pixel(t.2, k)
        }),
{
    match decode_image(bytes, kind) {
        None => {
            let mut m = String::new();
            push_str(&mut m, "load_color_map: the image could not be decoded");
            proof {
                reveal_strlit("load_color_map: the image could not be decoded");
            }
            Err(ObjError::General(m))
        },
        Some((width, height, raw)) => Ok(color_map_from_rgba(width, height, raw.as_slice())),
    }
}

} // verus!
