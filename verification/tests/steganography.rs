use cloud_p2p::encoding::image_to_base64;
use cloud_p2p::steg::{hide_image, steg_decode, steg_decode_text, steg_encode, strip_ff, RgbaPixels};

fn opaque_cover(w: u32, h: u32) -> RgbaPixels {
    let mut data = Vec::new();
    for i in 0..(w * h) {
        data.extend_from_slice(&[(i % 256) as u8, 10, 20, 255]);
    }
    RgbaPixels { width: w, height: h, data }
}

#[test]
fn hidden_image_comes_back() {
    let cover = opaque_cover(8, 8);
    let image = b"\x89PNG tiny".to_vec();
    let out = hide_image(&cover, &image).expect("fits");
    assert_eq!(out.width, 8);
    assert_eq!(out.data.len(), cover.data.len());
    // colours untouched, alpha carries the base64 text
    let text = image_to_base64(&image);
    for (i, b) in text.bytes().enumerate() {
        assert_eq!(out.data[4 * i + 3], b);
        assert_eq!(out.data[4 * i], cover.data[4 * i]);
    }
    assert_eq!(out.data[4 * text.len() + 3], 255);
    assert_eq!(steg_decode(&out), Some(image));
}

#[test]
fn message_too_large_for_cover() {
    let cover = opaque_cover(2, 2);
    assert!(steg_encode(&cover, &"12345".to_string()).is_none());
    assert!(steg_encode(&cover, &"1234".to_string()).is_some());
    assert!(hide_image(&cover, b"abcd").is_none());
}

#[test]
fn hidden_text_skips_opaque_alpha() {
    let cover = opaque_cover(4, 1);
    let out = steg_encode(&cover, &"ab".to_string()).unwrap();
    assert_eq!(steg_decode_text(&out), Some("ab".to_string()));
    assert_eq!(strip_ff(&[1, 255, 2, 255]), vec![1, 2]);
}

#[test]
fn invalid_hidden_text_is_refused() {
    let mut cover = opaque_cover(2, 1);
    cover.data[3] = 0xc3; // a lone UTF-8 lead byte
    assert_eq!(steg_decode_text(&cover), None);
    let plain = steg_encode(&opaque_cover(4, 1), &"@@".to_string()).unwrap();
    assert_eq!(steg_decode(&plain), None);
}

#[test]
fn hidden_image_comes_back_when_only_the_pixels_past_it_are_opaque() {
    let mut cover = opaque_cover(3, 2);
    let image = vec![1u8, 2, 3];
    // "AQID" covers pixels 0..4; those may be transparent
    for i in 0..4 {
        cover.data[4 * i + 3] = 0;
    }
    let out = hide_image(&cover, &image).expect("fits");
    assert_eq!(steg_decode(&out), Some(image));
    // a transparent pixel past the text spoils the read-back
    let mut spoiled = opaque_cover(3, 2);
    spoiled.data[4 * 5 + 3] = 0;
    let out = hide_image(&spoiled, &[1u8, 2, 3]).expect("fits");
    assert_eq!(steg_decode_text(&out), Some("AQID\0".to_string()));
}

#[test]
fn base64_text_is_standard_and_padded() {
    assert_eq!(image_to_base64(b"Man"), "TWFu");
    assert_eq!(image_to_base64(b"Ma"), "TWE=");
    assert_eq!(image_to_base64(b"M"), "TQ==");
    assert_eq!(image_to_base64(&[255, 255]), "//8=");
    assert_eq!(image_to_base64(&[251, 239, 190, 0]), "++++AA==");
    assert_eq!(image_to_base64(&[]), "");
}
