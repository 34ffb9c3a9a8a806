use cloud_p2p::chunks::{chunk, chunk_lines, chunk_line_text, total_chunks, ChunkAssembler, ChunkEvent, FieldOrder};
use cloud_p2p::encoding::{base64_to_image, decode_payload, image_to_base64};
use cloud_p2p::text::{
    chars_of, decimal_string, ipv4_string, parse_bool, parse_i32, parse_u16, parse_u32, parse_usize, split_chars,
    split_words, string_of, trim_chars,
};

fn cs(s: &str) -> Vec<char> {
    s.chars().collect()
}

fn strs(v: &[Vec<char>]) -> Vec<String> {
    v.iter().map(|x| x.iter().collect()).collect()
}

#[test]
fn words_are_split_on_any_whitespace() {
    assert_eq!(strs(&split_words(&cs("  2 encrypt\t2 \n"))), vec!["2", "encrypt", "2"]);
    assert_eq!(strs(&split_words(&cs("a\u{a0}b"))), vec!["a", "b"]);
    assert!(split_words(&cs("   ")).is_empty());
}

#[test]
fn fields_keep_empty_pieces() {
    assert_eq!(strs(&split_chars(&cs("a::b:"), ':')), vec!["a", "", "b", ""]);
    assert_eq!(strs(&split_chars(&cs(""), ':')), vec![""]);
}

#[test]
fn trim_removes_whitespace_at_both_ends() {
    assert_eq!(string_of(&trim_chars(&cs(" \t x y \r\n"))), "x y");
    assert_eq!(string_of(&trim_chars(&cs("   "))), "");
}

#[test]
fn numbers_parse_like_std() {
    assert_eq!(parse_u32(&cs("42")), Some(42));
    assert_eq!(parse_u32(&cs("+7")), Some(7));
    assert_eq!(parse_u32(&cs("4294967295")), Some(u32::MAX));
    assert_eq!(parse_u32(&cs("4294967296")), None);
    assert_eq!(parse_u32(&cs("")), None);
    assert_eq!(parse_u32(&cs("+")), None);
    assert_eq!(parse_u32(&cs("-1")), None);
    assert_eq!(parse_u32(&cs("1a")), None);
    assert_eq!(parse_u16(&cs("65535")), Some(65535));
    assert_eq!(parse_u16(&cs("65536")), None);
    assert_eq!(parse_usize(&cs("0012")), Some(12));
    assert_eq!(parse_i32(&cs("-2147483648")), Some(i32::MIN));
    assert_eq!(parse_i32(&cs("-2147483649")), None);
    assert_eq!(parse_i32(&cs("2147483647")), Some(i32::MAX));
    assert_eq!(parse_i32(&cs("-")), None);
    assert_eq!(parse_i32(&cs("-5")), Some(-5));
    for s in ["0", "17", "+3", "-3", "99999999999", "x"] {
        assert_eq!(parse_u32(&cs(s)), s.parse::<u32>().ok());
        assert_eq!(parse_i32(&cs(s)), s.parse::<i32>().ok());
    }
}

#[test]
fn booleans_parse_like_std() {
    assert_eq!(parse_bool(&cs("true")), Some(true));
    assert_eq!(parse_bool(&cs("false")), Some(false));
    assert_eq!(parse_bool(&cs("True")), None);
}

#[test]
fn decimal_and_address_text() {
    assert_eq!(decimal_string(0), "0");
    assert_eq!(decimal_string(1024), "1024");
    assert_eq!(ipv4_string(0x7f000005), "127.0.0.5");
    assert_eq!(ipv4_string((10 << 24) | (255 << 8) | 1), "10.0.255.1");
    assert_eq!(chars_of("héllo"), vec!['h', 'é', 'l', 'l', 'o']);
}

#[test]
fn base64_of_image_bytes() {
    assert_eq!(image_to_base64(b"hello"), "aGVsbG8=");
    assert_eq!(base64_to_image("aGVsbG8="), Some(b"hello".to_vec()));
    assert_eq!(base64_to_image("not base64!"), None);
    assert_eq!(decode_payload("***"), Vec::<u8>::new());
}

#[test]
fn chunk_counts_and_bounds() {
    assert_eq!(total_chunks(0), 0);
    assert_eq!(total_chunks(1), 1);
    assert_eq!(total_chunks(1024), 1);
    assert_eq!(total_chunks(1025), 2);
    let data: Vec<u8> = (0..2500u32).map(|i| (i % 251) as u8).collect();
    assert_eq!(chunk(&data, 0), data[0..1024].to_vec());
    assert_eq!(chunk(&data, 2), data[2048..2500].to_vec());
}

#[test]
fn chunk_line_formats() {
    assert_eq!(chunk_line_text(FieldOrder::IdFirst, 3, 7, b"hi"), "3:7:aGk=");
    assert_eq!(chunk_line_text(FieldOrder::TotalFirst, 3, 7, b"hi"), "7:3:aGk=");
}

#[test]
fn chunked_image_is_reassembled() {
    let data: Vec<u8> = (0..3000u32).map(|i| (i * 7 % 256) as u8).collect();
    for order in [FieldOrder::IdFirst, FieldOrder::TotalFirst] {
        for strict in [true, false] {
            let lines = chunk_lines(order, &data);
            assert_eq!(lines.len(), 3);
            let mut rx = ChunkAssembler::new(order, strict);
            for (k, l) in lines.iter().enumerate() {
                match rx.accept(l) {
                    ChunkEvent::Complete(img) => {
                        assert_eq!(k, lines.len() - 1);
                        assert_eq!(img, data);
                    }
                    ChunkEvent::Pending => assert!(k < lines.len() - 1),
                    _ => panic!("unexpected event"),
                }
            }
        }
    }
}

#[test]
fn chunks_in_any_order_are_reassembled() {
    let data: Vec<u8> = (0..2100u32).map(|i| (i % 13) as u8).collect();
    let lines = chunk_lines(FieldOrder::IdFirst, &data);
    let mut rx = ChunkAssembler::new(FieldOrder::IdFirst, false);
    assert!(matches!(rx.accept(&lines[2]), ChunkEvent::Pending));
    assert!(matches!(rx.accept(&lines[0]), ChunkEvent::Pending));
    match rx.accept(&lines[1]) {
        ChunkEvent::Complete(img) => assert_eq!(img, data),
        _ => panic!("expected the image"),
    }
}

#[test]
fn malformed_chunk_lines() {
    let mut strict = ChunkAssembler::new(FieldOrder::IdFirst, true);
    assert!(matches!(strict.accept("just text"), ChunkEvent::Invalid));
    assert!(matches!(strict.accept("1:2"), ChunkEvent::Invalid));
    assert!(matches!(strict.accept("a:2:xx"), ChunkEvent::Invalid));
    let mut lenient = ChunkAssembler::new(FieldOrder::IdFirst, false);
    assert!(matches!(lenient.accept("just text"), ChunkEvent::Fatal));
    assert!(matches!(lenient.accept("1:2"), ChunkEvent::Fatal));
    assert!(matches!(lenient.accept("x:y:zz"), ChunkEvent::Invalid));
    // a chunk number past the count is ignored
    assert!(matches!(lenient.accept("5:2:aGk="), ChunkEvent::Pending));
    assert!(matches!(lenient.accept("0:2:aGk="), ChunkEvent::Pending));
    match lenient.accept("1:2:!!") {
        ChunkEvent::Complete(img) => assert_eq!(img, b"hi".to_vec()),
        _ => panic!("expected the image"),
    }
}

#[test]
fn zero_chunk_count_completes_at_once() {
    let mut rx = ChunkAssembler::new(FieldOrder::TotalFirst, true);
    match rx.accept("0:0:") {
        ChunkEvent::Complete(img) => assert!(img.is_empty()),
        _ => panic!("expected an empty image"),
    }
}
