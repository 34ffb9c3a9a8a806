//! Hiding an image inside the alpha channel of a cover image, through the
//! `steganography` crate: the server hides the base64 text of a client's
//! image in its cover picture; the owner's client extracts it again.

use vstd::prelude::*;
use vstd::utf8::{valid_utf8, decode_utf8, encode_utf8};
use crate::encoding::{base64_bytes, base64_text, is_base64_char, image_to_base64, base64_to_image};

verus! {

/// An image as 8-bit RGBA pixels, row by row, four bytes per pixel.
pub struct RgbaPixels {
    pub width: u32,
    pub height: u32,
    pub data: Vec<u8>,
}

impl RgbaPixels {
    /// Four bytes per pixel, and a pixel count that fits in `u32`.
    pub open spec fn wf(&self) -> bool {
        &&& self.data@.len() == 4 * (self.width * self.height)
        &&& self.width * self.height <= u32::MAX
    }

    /// Number of pixels.
    pub open spec fn pixel_count(&self) -> nat {
        (self.width * self.height) as nat
    }
}

/// The alpha byte of every pixel, in pixel order.
pub open spec fn alpha_bytes(data: Seq<u8>) -> Seq<u8> {
    Seq::new(data.len() / 4, |i: int| data[4 * i + 3])
}

/// `data` with the alpha byte of pixel `i` replaced by `payload[i]`, for
/// every pixel that the payload reaches.
pub open spec fn alpha_embedded(data: Seq<u8>, payload: Seq<u8>) -> Seq<u8> {
    Seq::new(data.len(), |k: int| if k % 4 == 3 && k / 4 < payload.len() { payload[k / 4] } else { data[k] })
}

/// Calls `steganography::encoder::Encoder::new(payload, image).encode_alpha()`
/// on the cover image.
/// Trusted: the result has the cover's size and pixels, except that the
/// alpha byte of pixel `i` is `payload[i]` for every `i` below the payload's
/// length (as the crate's source writes it). The crate panics where the
/// payload is longer than the pixel count or the pixel count overflows
/// `u32`; `requires` leaves those inputs out.
#[verifier::external_body]
fn encode_alpha(payload: &[u8], cover: &RgbaPixels) -> (r: RgbaPixels)
    requires
        cover.wf(),
        payload@.len() <= cover.pixel_count(),
    ensures
        r.width == cover.width,
        r.height == cover.height,
        r.data@ == alpha_embedded(cover.data@, payload@),
{
    let buf: image::ImageBuffer<image::Rgba<u8>, Vec<u8>> =
        image::ImageBuffer::from_raw(cover.width, cover.height, cover.data.clone()).unwrap();
    let img = image::DynamicImage::ImageRgba8(buf);
    let out = steganography::encoder::Encoder::new(payload, img).encode_alpha();
    RgbaPixels { width: cover.width, height: cover.height, data: out.into_raw() }
}

/// Calls `steganography::decoder::Decoder::new(image).decode_alpha()`.
/// Trusted: the result is the alpha byte of every pixel, in pixel order (as
/// the crate's source writes it).
#[verifier::external_body]
fn decode_alpha(img: &RgbaPixels) -> (r: Vec<u8>)
    requires
        img.wf(),
    ensures
        r@ == alpha_bytes(img.data@),
{
    let buf: image::ImageBuffer<image::Rgba<u8>, Vec<u8>> =
        image::ImageBuffer::from_raw(img.width, img.height, img.data.clone()).unwrap();
    steganography::decoder::Decoder::new(buf).decode_alpha()
}

/// Calls `steganography::util::str_to_bytes`.
/// Trusted: the result is the UTF-8 encoding of the message (the crate
/// returns `msg.as_bytes()`).
#[verifier::external_body]
fn str_to_bytes(msg: &String) -> (r: Vec<u8>)
    ensures
        r@ == encode_utf8(msg@),
{
    steganography::util::str_to_bytes(msg).to_vec()
}

/// Calls `steganography::util::bytes_to_str`.
/// Trusted: on valid UTF-8 the result is the decoded text (the crate calls
/// `str::from_utf8(bytes).unwrap()`, which panics on invalid UTF-8; the
/// `requires` leaves that out).
#[verifier::external_body]
fn bytes_to_str(bytes: &[u8]) -> (r: String)
    requires
        valid_utf8(bytes@),
    ensures
        r@ == decode_utf8(bytes@),
{
    steganography::util::bytes_to_str(bytes).to_string()
}

/// Calls std's `str::from_utf8` to test the bytes.
/// Trusted: it accepts exactly the valid UTF-8 byte sequences, as std
/// documents.
#[verifier::external_body]
fn is_valid_utf8(bytes: &[u8]) -> (r: bool)
    ensures
        r == valid_utf8(bytes@),
{
    std::str::from_utf8(bytes).is_ok()
}

/// `s` without its `0xff` bytes.
pub open spec fn without_ff(s: Seq<u8>) -> Seq<u8>
    decreases s.len(),
{
    if s.len() == 0 {
        s
    } else if s.last() == 0xff {
        without_ff(s.drop_last())
    } else {
        without_ff(s.drop_last()).push(s.last())
    }
}

/// Drops every `0xff` byte (the bytes that an opaque cover leaves in the
/// alpha channel after the hidden message).
pub fn strip_ff(s: &[u8]) -> (r: Vec<u8>)
    ensures
        r@ == without_ff(s@),
{
    let mut r: Vec<u8> = Vec::new();
    let n = s.len();
    for i in 0..n
        invariant
            n == s@.len(),
            r@ == without_ff(s@.take(i as int)),
    {
        assert(s@.take(i + 1).drop_last() =~= s@.take(i as int));
        if s[i] != 0xff {
            r.push(s[i]);
        }
    }
    assert(s@.take(n as int) =~= s@);
    r
}

/// The text hidden in an image's alpha channel: the alpha bytes without
/// `0xff`, read as UTF-8; `None` where they are not UTF-8.
pub open spec fn hidden_text(data: Seq<u8>) -> Option<Seq<char>> {
    let b = without_ff(alpha_bytes(data));
    if valid_utf8(b) {
        Some(decode_utf8(b))
    } else {
        None
    }
}

/// The image bytes hidden in an image: the hidden text read as base64.
pub open spec fn hidden_image(data: Seq<u8>) -> Option<Seq<u8>> {
    match hidden_text(data) {
        Some(t) => base64_bytes(t),
        None => None,
    }
}

/// Every pixel from pixel `n` on fully opaque.
pub open spec fn opaque_from(data: Seq<u8>, n: nat) -> bool {
    forall|i: int| n <= i < data.len() / 4 ==> #[trigger] data[4 * i + 3] == 0xff
}

/// Hides a text message in the cover's alpha channel; `None` where the
/// message has more bytes than the cover has pixels.
pub fn steg_encode(cover: &RgbaPixels, message: &String) -> (r: Option<RgbaPixels>)
    requires
        cover.wf(),
    ensures
        match r {
            Some(out) => {
                &&& encode_utf8(message@).len() <= cover.pixel_count()
                &&& out.width == cover.width
                &&& out.height == cover.height
                &&& out.data@ == alpha_embedded(cover.data@, encode_utf8(message@))
            },
            None => encode_utf8(message@).len() > cover.pixel_count(),
        },
{
    let payload = str_to_bytes(message);
    let pixels: u64 = cover.width as u64 * cover.height as u64;
    if payload.len() as u64 > pixels {
        return None;
    }
    Some(encode_alpha(payload.as_slice(), cover))
}

/// The text hidden in an image; `None` where the alpha bytes, without
/// `0xff`, are not UTF-8.
pub fn steg_decode_text(img: &RgbaPixels) -> (r: Option<String>)
    requires
        img.wf(),
    ensures
        match r {
            Some(t) => hidden_text(img.data@) == Some(t@),
            None => hidden_text(img.data@) is None,
        },
{
    let alpha = decode_alpha(img);
    let clean = strip_ff(alpha.as_slice());
    if is_valid_utf8(clean.as_slice()) {
        Some(bytes_to_str(clean.as_slice()))
    } else {
        None
    }
}

/// The image bytes hidden in an image (the hidden text read as base64);
/// `None` where the hidden text is not UTF-8 or not base64.
pub fn steg_decode(img: &RgbaPixels) -> (r: Option<Vec<u8>>)
    requires
        img.wf(),
    ensures
        match r {
            Some(b) => hidden_image(img.data@) == Some(b@),
            None => hidden_image(img.data@) is None,
        },
{
    match steg_decode_text(img) {
        Some(t) => base64_to_image(t.as_str()),
        None => None,
    }
}


proof fn lemma_without_ff_clean(p: Seq<u8>)
    requires
        forall|i: int| 0 <= i < p.len() ==> p[i] != 0xff,
    ensures
        without_ff(p) == p,
    decreases p.len(),
{
    if p.len() > 0 {
        lemma_without_ff_clean(p.drop_last());
        assert(p.drop_last().push(p.last()) =~= p);
    }
}

proof fn lemma_without_ff_tail(s: Seq<u8>, k: int)
    requires
        0 <= k <= s.len(),
        forall|j: int| k <= j < s.len() ==> s[j] == 0xff,
    ensures
        without_ff(s) == without_ff(s.take(k)),
    decreases s.len() - k,
{
    if k < s.len() {
        assert(s.drop_last().take(k) =~= s.take(k));
        lemma_without_ff_tail(s.drop_last(), k);
    } else {
        assert(s.take(k) =~= s);
    }
}

/// Text hidden by `steg_encode` is read back by `steg_decode_text`, and the
/// image it encodes by `steg_decode`: where the text is ASCII (as base64
/// text is), fits in the cover's pixels, and every pixel of the cover past
/// it is opaque.
pub proof fn lemma_hidden_read_back(data: Seq<u8>, t: Seq<char>)
    requires
        data.len() % 4 == 0,
        vstd::utf8::is_ascii_chars(t),
        t.len() <= data.len() / 4,
        opaque_from(data, t.len()),
    ensures
        hidden_text(alpha_embedded(data, encode_utf8(t))) == Some(t),
        hidden_image(alpha_embedded(data, encode_utf8(t))) == base64_bytes(t),
{
    let p = encode_utf8(t);
    vstd::utf8::is_ascii_chars_encode_utf8(t);
    vstd::utf8::encode_utf8_valid_utf8(t);
    vstd::utf8::encode_utf8_decode_utf8(t);
    let out = alpha_embedded(data, p);
    let a = alpha_bytes(out);
    assert(a.len() == data.len() / 4);
    assert forall|j: int| p.len() <= j < a.len() implies a[j] == 0xff by {
        assert(a[j] == out[4 * j + 3]);
        assert((4 * j + 3) % 4 == 3 && (4 * j + 3) / 4 == j);
        assert(data[4 * j + 3] == 0xff);
    }
    lemma_without_ff_tail(a, p.len() as int);
    assert forall|j: int| 0 <= j < p.len() implies a.take(p.len() as int)[j] == p[j] by {
        assert(a[j] == out[4 * j + 3]);
        assert((4 * j + 3) % 4 == 3 && (4 * j + 3) / 4 == j);
    }
    assert(a.take(p.len() as int) =~= p);
    assert forall|i: int| 0 <= i < p.len() implies p[i] != 0xff by {
        assert(t[i] as u8 == p[i]);
    }
    lemma_without_ff_clean(p);
}

/// Hides an image in the cover: the image's base64 text goes into the
/// alpha channel. `None` where that text has more bytes than the cover has
/// pixels. Where every pixel of the cover past the text is opaque, the
/// image read back from the result is exactly the image hidden.
pub fn hide_image(cover: &RgbaPixels, image: &[u8]) -> (r: Option<RgbaPixels>)
    requires
        cover.wf(),
    ensures
        match r {
            Some(out) => {
                &&& out.wf()
                &&& out.width == cover.width
                &&& out.height == cover.height
                &&& out.data@ == alpha_embedded(cover.data@, encode_utf8(base64_text(image@)))
                &&& opaque_from(cover.data@, encode_utf8(base64_text(image@)).len())
                    ==> hidden_image(out.data@) == Some(image@)
            },
            None => encode_utf8(base64_text(image@)).len() > cover.pixel_count(),
        },
{
    let message = image_to_base64(image);
    let r = steg_encode(cover, &message);
    proof {
        let t = message@;
        assert(vstd::utf8::is_ascii_chars(t)) by {
            assert forall|i: int| 0 <= i < t.len() implies '\0' <= #[trigger] t[i] <= '\u{7f}' by {
                assert(is_base64_char(t[i]));
            }
        }
        vstd::utf8::is_ascii_chars_encode_utf8(t);
        if r is Some {
            let out = r->0;
            assert(out.data@.len() == cover.data@.len());
            if opaque_from(cover.data@, encode_utf8(t).len()) {
                lemma_hidden_read_back(cover.data@, t);
            }
        }
    }
    r
}

} // verus!
