//! Image files decoded to 8-bit RGBA textures.
use vstd::prelude::*;

use crate::error::IoError;
use crate::text::push_str;

verus! {

/// The image formats a texture file is decoded as.
#[derive(Clone, Copy, Debug, PartialEq, Eq, Structural)]
pub enum ImageKind {
    /// A BMP file.
    Bmp,
    /// An OpenEXR file (or another format its bytes show it to be).
    Exr,
}

/// An 8-bit RGBA texture: width, height, and the row-major RGBA bytes.
#[derive(Clone, Debug)]
pub struct TextureData {
    pub width: u32,
    pub height: u32,
    pub rgba: Vec<u8>,
}

/// What the `image` crate decodes the bytes to as `kind`: the image as 8-bit RGBA (width,
/// height, pixels), or the text of its error (its `Display` form).
pub uninterp spec fn rgba8_image(bytes: Seq<u8>, kind: ImageKind) -> Result<(u32, u32, Seq<u8>), Seq<char>>;

/// `image::ImageReader::with_format` on the bytes and the format of `kind` (for `Exr` followed by
/// `with_guessed_format`, which takes the format the first bytes show when they show one), then
/// `decode` and `DynamicImage::into_rgba8`. Claimed: it succeeds exactly when the bytes decode,
/// and gives what they decode to, or else the decoder's error rendered with `Display`; both
/// named [`rgba8_image`] (a function of the bytes and the kind while no format hook is
/// registered with `image::hooks`, which nothing in this crate does).
#[verifier::external_body]
fn decode_rgba8(bytes: &[u8], kind: ImageKind) -> (r: Result<(u32, u32, Vec<u8>), String>)
    ensures
        r is Ok <==> rgba8_image(bytes@, kind) is Ok,
        r matches Ok(t) ==> rgba8_image(bytes@, kind) matches Ok(d) && d == (t.0, t.1, t.2@),
        r matches Err(t) ==> rgba8_image(bytes@, kind) matches Err(u) && u == t@,
{
    let format = match kind {
        ImageKind::Bmp => image::ImageFormat::Bmp,
        ImageKind::Exr => image::ImageFormat::OpenExr,
    };
    let reader = image::ImageReader::with_format(std::io::Cursor::new(bytes), format);
    let reader = match kind {
        ImageKind::Bmp => Ok(reader),
        ImageKind::Exr => reader.with_guessed_format(),
    };
    match reader.map_err(image::ImageError::IoError).and_then(|r| r.decode()) {
        Ok(img) => Ok((img.width(), img.height(), img.into_rgba8().into_raw())),
        Err(e) => Err(e.to_string()),
    }
}

/// The start of the error of a file that does not decode as `kind`.
pub open spec fn decode_error_head(kind: ImageKind) -> Seq<char> {
    match kind {
        ImageKind::Bmp => "failed to decode image: "@,
        ImageKind::Exr => "failed to decode EXR image: "@,
    }
}

/// Decodes the bytes of an image file as `kind` into an 8-bit RGBA texture (see
/// [`rgba8_image`]); when they do not decode, a parse error of [`decode_error_head`] and the
/// decoder's error.
pub fn texture_from_bytes(bytes: &[u8], kind: ImageKind) -> (r: Result<TextureData, IoError>)
    ensures
        match rgba8_image(bytes@, kind) {
            Ok((w, h, p)) => r matches Ok(t) && t.width == w && t.height == h && t.rgba@ == p,
            Err(d) => r matches Err(IoError::Parse(m)) && m@ == decode_error_head(kind) + d,
        },
{
    match decode_rgba8(bytes, kind) {
        Ok((width, height, rgba)) => Ok(TextureData { width, height, rgba }),
        Err(detail) => {
            let mut m = String::new();
            match kind {
                ImageKind::Bmp => push_str(&mut m, "failed to decode image: "),
                ImageKind::Exr => push_str(&mut m, "failed to decode EXR image: "),
            }
            push_str(&mut m, detail.as_str());
            Err(IoError::Parse(m))
        },
    }
}

} // verus!
