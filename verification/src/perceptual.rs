//! Perceptual fingerprints of image files.

use image::{DynamicImage, ImageError, ImageFormat};
use image_hasher::{HashAlg, HasherConfig};
use vstd::prelude::*;
use crate::fingerprint::Fingerprint;

verus! {

/// The width of the hash that an image is reduced to.
pub const HASH_WIDTH: u32 = 16;

/// The height of the hash that an image is reduced to.
pub const HASH_HEIGHT: u32 = 16;

/// `image::DynamicImage`, a decoded image. Its inside is not looked at.
#[verifier::external_type_specification]
#[verifier::external_body]
pub struct ExDynamicImage(DynamicImage);

/// `image::ImageFormat`, the name of an image format. Its inside is not
/// looked at.
#[verifier::external_type_specification]
#[verifier::external_body]
pub struct ExImageFormat(ImageFormat);

/// `image::ImageError`, why an image could not be decoded. Its inside is
/// not looked at.
#[verifier::external_type_specification]
#[verifier::external_body]
pub struct ExImageError(ImageError);

/// The image format that the extension of a path names, if it names one:
/// what `image::ImageFormat::from_path` makes of the path.
pub uninterp spec fn named_format(path: Seq<char>) -> Option<ImageFormat>;

/// Whether the bytes decode as an image of the given format: whether
/// `image::load_from_memory_with_format` yields an image for them.
pub uninterp spec fn decodable(content: Seq<u8>, format: ImageFormat) -> bool;

/// Why a file has no fingerprint.
#[derive(Debug, Clone, PartialEq, Eq)]
pub enum DecodeFailure {
    /// The extension of the path names no image format.
    UnknownFormat,
    /// The content does not decode in the format that the extension names.
    Undecodable {
        /// What the decoder said of it.
        cause: String,
    },
}

/// `image::ImageFormat::from_path`: the format that the extension of the
/// path names, if it names one. The format depends on the path alone.
#[verifier::external_body]
fn format_of(path: &str) -> (format: Option<ImageFormat>)
    ensures
        format == named_format(path@),
{
    ImageFormat::from_path(path).ok()
}

/// `image::load_from_memory_with_format`: the image that the bytes encode
/// in the given format, or the decoder's error. Whether there is an image
/// depends on the bytes and the format alone; nothing is claimed of the
/// image or of the error.
#[verifier::external_body]
fn decode(content: &[u8], format: ImageFormat) -> (image: Result<DynamicImage, ImageError>)
    ensures
        image.is_ok() == decodable(content@, format),
{
    image::load_from_memory_with_format(content, format)
}

/// The `Debug` form of an `image::ImageError`. Nothing is claimed of it.
#[verifier::external_body]
fn describe(error: &ImageError) -> (cause: String) {
    format!("{error:?}")
}

/// A side of the hash as the double-gradient algorithm takes it: rounded
/// up to the next even number.
pub open spec fn rounded(side: int) -> int {
    if side % 2 == 0 {
        side
    } else {
        side + 1
    }
}

/// The number of bits of a double-gradient hash of the given size. The
/// image is shrunk to half of each rounded side plus one, and every pixel
/// but the first of each row and of each column yields one bit.
pub open spec fn hash_bits(width: int, height: int) -> int {
    let columns = rounded(width) / 2 + 1;
    let rows = rounded(height) / 2 + 1;
    rows * (columns - 1) + columns * (rows - 1)
}

/// The number of bytes of a double-gradient hash of the given size: its
/// bits, eight to the byte.
pub open spec fn hash_len(width: int, height: int) -> int {
    (hash_bits(width, height) + 7) / 8
}

/// The greatest side of a hash that is asked for: the outside code rounds
/// the sides up to even numbers and multiplies them as `u32`.
pub const MAX_HASH_SIDE: u32 = 0xfffe;

/// The number of bytes of the fingerprint of an image.
pub const FINGERPRINT_BYTES: usize = 18;

/// `image_hasher::Hasher::hash_image` with the double-gradient algorithm
/// and the given hash size: the bytes of the hash. The outside code rounds
/// the sides up to even ones, shrinks the image to half of each plus one,
/// compares every pixel with the one before it in its row and with the one
/// before it in its column, and packs the outcomes eight to the byte; so
/// the hash of every image has `hash_len(width, height)` bytes. Nothing is
/// claimed of the bits themselves: they come of a resizing in floating
/// point. The outside code multiplies the rounded sides as `u32`, so sides
/// beyond `MAX_HASH_SIDE` are not accepted.
#[verifier::external_body]
fn double_gradient_hash(image: &DynamicImage, width: u32, height: u32) -> (bits: Vec<u8>)
    requires
        1 <= width <= MAX_HASH_SIDE,
        1 <= height <= MAX_HASH_SIDE,
    ensures
        bits@.len() == hash_len(width as int, height as int),
{
    let hasher = HasherConfig::new().hash_alg(HashAlg::DoubleGradient).hash_size(width, height).to_hasher();
    hasher.hash_image(image).as_bytes().to_vec()
}

/// The perceptual fingerprint of an image file, from its path and its
/// content. The format is taken from the extension of the path, and the
/// content is decoded in that format. A file whose extension names an
/// image format and whose content decodes in it has a fingerprint of
/// `FINGERPRINT_BYTES` bytes; any other file has none, and the failure
/// says which of the two it lacks.
pub fn image_fingerprint(path: &str, content: &[u8]) -> (result: Result<Fingerprint, DecodeFailure>)
    ensures
        match result {
            Ok(fingerprint) => named_format(path@) matches Some(format) && decodable(content@, format),
            Err(DecodeFailure::UnknownFormat) => named_format(path@).is_none(),
            Err(DecodeFailure::Undecodable { .. }) => named_format(path@) matches Some(format) && !decodable(
                content@,
                format,
            ),
        },
        result matches Ok(fingerprint) ==> fingerprint@.len() == FINGERPRINT_BYTES,
{
    let format = match format_of(path) {
        Some(format) => format,
        None => {
            return Err(DecodeFailure::UnknownFormat);
        },
    };
    let image = match decode(content, format) {
        Ok(image) => image,
        Err(error) => {
            return Err(DecodeFailure::Undecodable { cause: describe(&error) });
        },
    };
    let bits = double_gradient_hash(&image, HASH_WIDTH, HASH_HEIGHT);
    proof {
        assert(rounded(16) == 16);
        assert(rounded(16) / 2 + 1 == 9);
        assert(9int * 8int + 9int * 8int == 144);
        assert(hash_bits(16, 16) == 144);
        assert(hash_len(16, 16) == 18);
    }
    match Fingerprint::new(bits) {
        Some(fingerprint) => Ok(fingerprint),
        None => vstd::pervasive::unreached(),
    }
}

} // verus!
