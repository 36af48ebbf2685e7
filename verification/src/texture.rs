//! Texture images, held encoded and decoded only when their pixels are needed.
use vstd::prelude::*;
use xxhash_rust::xxh3::Xxh3;

use crate::bytes;
use crate::hash;
use crate::jpeg;
use crate::png;

verus! {

/// The size that the header of an image gives, if it is an image at all: what
/// `image::ImageReader` returns of these bytes with the format it guesses.
pub uninterp spec fn image_size(encoded: Seq<u8>) -> Option<(u32, u32)>;

/// What an image decodes to, as RGBA with 8 bits per channel: its width, its
/// height and its pixels. What `image::load_from_memory` and then `to_rgba8`
/// give of these bytes.
pub uninterp spec fn image_pixels(encoded: Seq<u8>) -> Option<(u32, u32, Seq<u8>)>;

/// `image::ImageReader::into_dimensions` on the bytes, with the format that
/// `with_guessed_format` finds. Only the header is read. The size is a function
/// of the bytes alone. The JPEG decoder behind it counts bytes in an `i32`.
#[verifier::external_body]
fn read_size(encoded: &Vec<u8>) -> (r: Option<(u32, u32)>)
    requires
        jpeg::is_readable(encoded@),
    ensures
        r == image_size(encoded@),
{
    let reader = image::ImageReader::new(std::io::Cursor::new(encoded));
    reader.with_guessed_format().ok()?.into_dimensions().ok()
}

/// `image::load_from_memory`, and `to_rgba8` of what it returns. The pixels are
/// a function of the bytes alone. On some of the files that `jpeg::is_decodable`
/// and `png::is_decodable` leave out, the decoders behind it run past a buffer,
/// or out of an integer where the build checks for that.
#[verifier::external_body]
fn decode(encoded: &Vec<u8>) -> (r: Option<(u32, u32, Vec<u8>)>)
    requires
        jpeg::is_decodable(encoded@),
        png::is_decodable(encoded@),
    ensures
        match r {
            Some((w, h, p)) => image_pixels(encoded@) == Some((w, h, p@)),
            None => image_pixels(encoded@) is None,
        },
{
    let rgba = image::load_from_memory(encoded).ok()?.to_rgba8();
    let (w, h) = rgba.dimensions();
    Some((w, h, rgba.into_raw()))
}

/// A texture image. It is held as its encoded bytes and decoded on first use,
/// so a texture that was baked is never decoded.
pub struct TextureData {
    pub width: u32,
    pub height: u32,
    /// The hash of the encoded bytes, or of the pixels of a texture that was
    /// made from pixels.
    pub source_key: u64,
    pub encoded: Vec<u8>,
    /// What decoding gave, once it has run.
    pub decoded: Option<Option<Vec<u8>>>,
}

/// The size that the header of an image gives, where the decoder can be handed
/// its bytes.
pub open spec fn header_size(encoded: Seq<u8>) -> Option<(u32, u32)> {
    if jpeg::is_readable(encoded) {
        image_size(encoded)
    } else {
        None
    }
}

/// What an image decodes to, where the decoder can be handed its bytes.
pub open spec fn decoded_image(encoded: Seq<u8>) -> Option<(u32, u32, Seq<u8>)> {
    if jpeg::is_decodable(encoded) && png::is_decodable(encoded) {
        image_pixels(encoded)
    } else {
        None
    }
}

/// What decoding an image gives that is expected to have a size.
pub open spec fn pixels_of(
    pixels: Option<(u32, u32, Seq<u8>)>,
    width: u32,
    height: u32,
) -> Option<Seq<u8>> {
    match pixels {
        Some((w, h, p)) => if w == width && h == height {
            Some(p)
        } else {
            None
        },
        None => None,
    }
}

/// The pixels of an image that decoded to some size, if that is the size its
/// header gave.
pub fn sized_pixels(pixels: Option<(u32, u32, Vec<u8>)>, width: u32, height: u32) -> (r: Option<
    Vec<u8>,
>)
    ensures
        match r {
            Some(p) => pixels matches Some((w, h, q)) && w == width && h == height && p == q,
            None => !(pixels matches Some((w, h, q)) && w == width && h == height),
        },
{
    match pixels {
        Some((w, h, p)) => if w == width && h == height {
            Some(p)
        } else {
            None
        },
        None => None,
    }
}

impl TextureData {
    /// What `pixels` returns: what decoding gave, or will give.
    pub open spec fn pixels_spec(&self) -> Option<Seq<u8>> {
        match self.decoded {
            Some(Some(p)) => Some(p@),
            Some(None) => None,
            None => pixels_of(decoded_image(self.encoded@), self.width, self.height),
        }
    }

    /// From encoded image bytes. Only the header is read, for the size; nothing
    /// comes of bytes that are not a readable image, or that the decoder cannot
    /// be handed.
    pub fn from_encoded(encoded: Vec<u8>) -> (r: Option<TextureData>)
        ensures
            match r {
                Some(t) => {
                    &&& header_size(encoded@) == Some((t.width, t.height))
                    &&& t.source_key == hash::xxh3_of(encoded@)
                    &&& t.encoded@ == encoded@
                    &&& t.decoded is None
                },
                None => header_size(encoded@) is None,
            },
    {
        let size: Option<(u32, u32)> = if jpeg::can_read(&encoded) {
            read_size(&encoded)
        } else {
            None
        };
        TextureData::of_size(encoded, size)
    }

    /// A texture whose header gave a size.
    pub fn of_size(encoded: Vec<u8>, size: Option<(u32, u32)>) -> (r: Option<TextureData>)
        ensures
            match r {
                Some(t) => {
                    &&& size == Some((t.width, t.height))
                    &&& t.source_key == hash::xxh3_of(encoded@)
                    &&& t.encoded@ == encoded@
                    &&& t.decoded is None
                },
                None => size is None,
            },
    {
        match size {
            Some((width, height)) => {
                let source_key: u64 = xxhash_rust::xxh3::xxh3_64(encoded.as_slice());
                Some(TextureData { width, height, source_key, encoded, decoded: None })
            },
            None => None,
        }
    }

    /// From pixels that are RGBA with 8 bits per channel already, keyed on them.
    pub fn from_rgba8(pixels: Vec<u8>, width: u32, height: u32) -> (r: TextureData)
        requires
            width * height * 4 <= u32::MAX,
            pixels@.len() == width * height * 4,
        ensures
            r.width == width,
            r.height == height,
            r.source_key == hash::xxh3_digest(bytes::le32(width) + bytes::le32(height) + pixels@),
            r.encoded@.len() == 0,
            r.decoded == Some(Some(pixels)),
    {
        let mut head: Vec<u8> = Vec::new();
        bytes::push_le32(&mut head, width);
        bytes::push_le32(&mut head, height);
        let mut h: Xxh3 = Xxh3::new();
        h.update(head.as_slice());
        h.update(pixels.as_slice());
        assert(hash::xxh3_fed(h) =~= bytes::le32(width) + bytes::le32(height) + pixels@);
        let source_key: u64 = h.digest();
        TextureData { width, height, source_key, encoded: Vec::new(), decoded: Some(Some(pixels)) }
    }

    /// The pixels, row by row; they are decoded on the first call. There are
    /// none when the bytes do not decode, when the decoder cannot be handed them,
    /// or when they decode to another size than the header said.
    pub fn pixels(&mut self) -> (r: Option<&Vec<u8>>)
        ensures
            match r {
                Some(p) => old(self).pixels_spec() == Some(p@),
                None => old(self).pixels_spec() is None,
            },
            final(self).decoded is Some,
            final(self).pixels_spec() == old(self).pixels_spec(),
            old(self).decoded is Some ==> *final(self) == *old(self),
            final(self).width == old(self).width,
            final(self).height == old(self).height,
            final(self).source_key == old(self).source_key,
            final(self).encoded == old(self).encoded,
    {
        if self.decoded.is_none() {
            let found: Option<(u32, u32, Vec<u8>)> = if jpeg::can_decode(&self.encoded)
                && png::can_decode(&self.encoded) {
                decode(&self.encoded)
            } else {
                None
            };
            self.decoded = Some(sized_pixels(found, self.width, self.height));
        }
        match &self.decoded {
            Some(Some(p)) => Some(p),
            _ => None,
        }
    }

    /// Whether `pixels` has run, or the texture was made from pixels.
    pub fn is_decoded(&self) -> (r: bool)
        ensures
            r == (self.decoded is Some),
    {
        self.decoded.is_some()
    }
}

/// Pixels count just where they have the size that was expected, and an image
/// that the decoders cannot be handed has neither size nor pixels.
pub proof fn law_pixels_have_the_size_of_the_header(
    w: u32,
    h: u32,
    p: Seq<u8>,
    width: u32,
    height: u32,
    encoded: Seq<u8>,
)
    ensures
        pixels_of(Some((w, h, p)), width, height) is Some <==> w == width && h == height,
        pixels_of(Some((w, h, p)), w, h) == Some(p),
        pixels_of(None, width, height) is None,
        !jpeg::is_readable(encoded) ==> header_size(encoded) is None,
        jpeg::is_readable(encoded) ==> header_size(encoded) == image_size(encoded),
        !jpeg::is_decodable(encoded) || !png::is_decodable(encoded) ==> decoded_image(
            encoded,
        ) is None,
        jpeg::is_decodable(encoded) && png::is_decodable(encoded) ==> decoded_image(encoded)
            == image_pixels(encoded),
{
}

/// Once decoded, a texture gives what decoding gave; before, what it will give.
pub proof fn law_pixels_are_decoded_once(t: TextureData)
    ensures
        t.decoded matches Some(Some(p)) ==> t.pixels_spec() == Some(p@),
        t.decoded == Some(None::<Vec<u8>>) ==> t.pixels_spec() is None,
        t.decoded is None ==> t.pixels_spec() == pixels_of(
            decoded_image(t.encoded@),
            t.width,
            t.height,
        ),
{
}

} // verus!
