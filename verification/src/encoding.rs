//! Base64 text for images and image chunks, through the `base64` crate.

use vstd::prelude::*;

verus! {

/// Characters of the standard base64 alphabet, padding included.
pub open spec fn is_base64_char(c: char) -> bool {
    ||| 'A' <= c <= 'Z'
    ||| 'a' <= c <= 'z'
    ||| '0' <= c <= '9'
    ||| c == '+'
    ||| c == '/'
    ||| c == '='
}

/// The character of the standard base64 alphabet for a six-bit value.
pub open spec fn base64_digit(v: int) -> char {
    if v < 26 {
        (65 + v) as char
    } else if v < 52 {
        (97 + (v - 26)) as char
    } else if v < 62 {
        (48 + (v - 52)) as char
    } else if v == 62 {
        '+'
    } else {
        '/'
    }
}

/// The standard, padded base64 text of `data`: each group of three bytes
/// gives four characters of six bits each; a last group of one or two
/// bytes is filled with zero bits and padded with `=` to four characters.
pub open spec fn base64_text(data: Seq<u8>) -> Seq<char>
    decreases data.len(),
{
    if data.len() == 0 {
        Seq::empty()
    } else if data.len() == 1 {
        let a = data[0] as int;
        seq![base64_digit(a / 4), base64_digit((a % 4) * 16), '=', '=']
    } else if data.len() == 2 {
        let a = data[0] as int;
        let b = data[1] as int;
        seq![base64_digit(a / 4), base64_digit((a % 4) * 16 + b / 16), base64_digit((b % 16) * 4), '=']
    } else {
        let a = data[0] as int;
        let b = data[1] as int;
        let c = data[2] as int;
        seq![base64_digit(a / 4), base64_digit((a % 4) * 16 + b / 16), base64_digit((b % 16) * 4 + c / 64), base64_digit(c % 64)]
            + base64_text(data.skip(3))
    }
}

proof fn lemma_base64_digit(v: int)
    requires
        0 <= v < 64,
    ensures
        is_base64_char(base64_digit(v)),
{
}

/// Base64 text is made of the base64 alphabet only.
pub proof fn lemma_base64_alphabet(data: Seq<u8>)
    ensures
        forall|i: int| 0 <= i < base64_text(data).len() ==> is_base64_char(#[trigger] base64_text(data)[i]),
    decreases data.len(),
{
    let t = base64_text(data);
    if data.len() >= 1 {
        let a = data[0] as int;
        lemma_base64_digit(a / 4);
        lemma_base64_digit((a % 4) * 16);
        if data.len() == 1 {
            assert forall|i: int| 0 <= i < t.len() implies is_base64_char(#[trigger] t[i]) by {}
        } else {
            let b = data[1] as int;
            lemma_base64_digit((a % 4) * 16 + b / 16);
            lemma_base64_digit((b % 16) * 4);
            if data.len() == 2 {
                assert forall|i: int| 0 <= i < t.len() implies is_base64_char(#[trigger] t[i]) by {}
            } else {
                let c = data[2] as int;
                lemma_base64_digit((b % 16) * 4 + c / 64);
                lemma_base64_digit(c % 64);
                lemma_base64_alphabet(data.skip(3));
                let head = seq![base64_digit(a / 4), base64_digit((a % 4) * 16 + b / 16), base64_digit((b % 16) * 4 + c / 64), base64_digit(c % 64)];
                let rest = base64_text(data.skip(3));
                assert(t == head + rest);
                assert forall|i: int| 0 <= i < t.len() implies is_base64_char(#[trigger] t[i]) by {
                    if i < 4 {
                        assert(t[i] == head[i]);
                    } else {
                        assert(t[i] == rest[i - 4]);
                    }
                }
            }
        }
    }
}

/// The bytes that `base64::decode` reads from `text`, `None` where it
/// reports an error.
pub uninterp spec fn base64_bytes(text: Seq<char>) -> Option<Seq<u8>>;

/// Calls `base64::encode` (base64 0.21, standard alphabet with padding).
/// Trusted: the result is the standard padded base64 text of the input
/// (`base64_text`), and decoding it gives the input back, as the crate
/// documents for its standard engine.
#[verifier::external_body]
fn b64_encode(data: &[u8]) -> (r: String)
    ensures
        r@ == base64_text(data@),
        base64_bytes(r@) == Some(data@),
{
    #[allow(deprecated)]
    let r = base64::encode(data);
    r
}

/// Calls `base64::decode` (base64 0.21, standard alphabet with padding).
/// Trusted: the result is the named decoding of the input text; the
/// crate's `DecodeError` becomes `None`.
#[verifier::external_body]
fn b64_decode(text: &str) -> (r: Option<Vec<u8>>)
    ensures
        match r {
            Some(v) => base64_bytes(text@) == Some(v@),
            None => base64_bytes(text@) is None,
        },
{
    #[allow(deprecated)]
    let r = base64::decode(text).ok();
    r
}

/// The base64 text of an image file's bytes.
pub fn image_to_base64(bytes: &[u8]) -> (r: String)
    ensures
        r@ == base64_text(bytes@),
        forall|i: int| 0 <= i < r@.len() ==> is_base64_char(#[trigger] r@[i]),
        base64_bytes(r@) == Some(bytes@),
{
    let r = b64_encode(bytes);
    proof {
        lemma_base64_alphabet(bytes@);
    }
    r
}

/// The image bytes that a base64 text holds; `None` where the text is not
/// valid base64.
pub fn base64_to_image(text: &str) -> (r: Option<Vec<u8>>)
    ensures
        match r {
            Some(v) => base64_bytes(text@) == Some(v@),
            None => base64_bytes(text@) is None,
        },
{
    b64_decode(text)
}

/// The bytes of a base64 chunk payload, empty where it is not valid base64
/// (the `unwrap_or_default` of the chunk receivers).
pub open spec fn payload_bytes(text: Seq<char>) -> Seq<u8> {
    match base64_bytes(text) {
        Some(b) => b,
        None => Seq::<u8>::empty(),
    }
}

/// Decodes a chunk payload, giving no bytes for invalid text.
pub fn decode_payload(text: &str) -> (r: Vec<u8>)
    ensures
        r@ == payload_bytes(text@),
{
    match b64_decode(text) {
        Some(v) => v,
        None => Vec::new(),
    }
}

} // verus!
