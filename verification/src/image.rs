//! Image header facts for artwork: hash, format and dimensions. Reads
//! headers only.
use vstd::prelude::*;

use sha2::{Digest, Sha256};

use crate::text::{ascii_lower_chars, ascii_lower_seq, chars_of, string_from_chars};

verus! {

#[derive(Debug, Clone, PartialEq, Eq)]
pub struct ImageInfo {
    /// SHA-256 of the bytes.
    pub hash: Vec<u8>,
    /// `png`, `jpeg`, `webp`, `gif`, `avif`, ...
    pub format: String,
    pub width: u32,
    pub height: u32,
}

/// The width and height `imagesize::blob_size` reads from the bytes, when
/// it recognises an image.
pub uninterp spec fn blob_size_of(bytes: Seq<u8>) -> Option<(usize, usize)>;

/// The debug name of the `imagesize::ImageType` that `imagesize::image_type`
/// finds in the bytes (`Png`, `Jpeg`, ...), when it recognises one.
pub uninterp spec fn image_type_name_of(bytes: Seq<u8>) -> Option<Seq<char>>;

/// The SHA-256 digest of the bytes.
pub uninterp spec fn sha256_of(bytes: Seq<u8>) -> Seq<u8>;

/// `imagesize::blob_size`: the dimensions, or `None` on its error. Its JPEG
/// reader counts start markers in an `i32`, which a build that checks
/// overflow could overflow only past 2^31 markers, more than 8 GiB of
/// input; the input is bounded below that. Its HEIF reader multiplies width
/// by height in a `usize`, which cannot overflow where `usize` has 64 bits,
/// the targets this library is built for.
#[verifier::external_body]
fn blob_size(bytes: &[u8]) -> (r: Option<(usize, usize)>)
    requires
        bytes@.len() < 0x2_0000_0000,
    ensures
        r == blob_size_of(bytes@),
{
    match imagesize::blob_size(bytes) {
        Ok(s) => Some((s.width, s.height)),
        Err(_) => None,
    }
}

/// `imagesize::image_type`, printed with `{:?}`, or `None` on its error.
#[verifier::external_body]
fn image_type_name(bytes: &[u8]) -> (r: Option<String>)
    ensures
        match r {
            Some(s) => image_type_name_of(bytes@) == Some(s@),
            None => image_type_name_of(bytes@) is None,
        },
{
    match imagesize::image_type(bytes) {
        Ok(t) => Some(format!("{:?}", t)),
        Err(_) => None,
    }
}

/// `Sha256::digest`: always 32 bytes.
#[verifier::external_body]
fn sha256(bytes: &[u8]) -> (r: Vec<u8>)
    ensures
        r@ == sha256_of(bytes@),
        r@.len() == 32,
{
    Sha256::digest(bytes).to_vec()
}

/// What `describe` gives: nothing unless both the size and the type are
/// recognised; then the digest, the type's name in ASCII lowercase, and the
/// dimensions cut to 32 bits.
pub open spec fn describe_of(bytes: Seq<u8>) -> Option<(Seq<u8>, Seq<char>, u32, u32)> {
    match (blob_size_of(bytes), image_type_name_of(bytes)) {
        (Some((w, h)), Some(name)) => Some((sha256_of(bytes), ascii_lower_seq(name), w as u32, h as u32)),
        _ => None,
    }
}

/// Describe image bytes. `None` when they are not a recognisable image, in
/// which case the file is ignored as artwork rather than reported. Images
/// of 8 GiB or more are beyond what the size reader is held to.
pub fn describe(bytes: &[u8]) -> (r: Option<ImageInfo>)
    requires
        bytes@.len() < 0x2_0000_0000,
    ensures
        match describe_of(bytes@) {
            None => r is None,
            Some((hash, format, w, h)) => r matches Some(info) && info.hash@ == hash && info.format@ == format
                && info.width == w && info.height == h,
        },
{
    let (w, h) = match blob_size(bytes) {
        Some(s) => s,
        None => return None,
    };
    let name = match image_type_name(bytes) {
        Some(n) => n,
        None => return None,
    };
    let format = string_from_chars(&ascii_lower_chars(&chars_of(name.as_str())));
    let hash = sha256(bytes);
    Some(ImageInfo { hash, format, width: w as u32, height: h as u32 })
}

} // verus!
