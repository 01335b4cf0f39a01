use std::io::Write;

use base64::engine::general_purpose::STANDARD as BASE64;
use base64::Engine;
use flate2::write::GzEncoder;
use flate2::Compression;
use hoglet::capture::decompress::{
    decode, has_gzip_magic, looks_like_base64, parse_form, split_text, urlencoding_decode,
    DecodeError, MAX_DECOMPRESSED_BYTES,
};
use hoglet::capture::lz::decompress_lz64_bounded;

fn gzip(data: &[u8]) -> Vec<u8> {
    let mut enc = GzEncoder::new(Vec::new(), Compression::default());
    enc.write_all(data).unwrap();
    enc.finish().unwrap()
}

#[test]
fn raw_json_passes_through() {
    assert_eq!(decode(b"{\"a\":1}", false, None).unwrap(), "{\"a\":1}");
}

#[test]
fn gzip_sniffed_even_with_wrong_hint() {
    let body = gzip(b"{\"a\":1}");
    assert_eq!(decode(&body, false, Some("lz64")).unwrap(), "{\"a\":1}");
}

#[test]
fn base64_wrapped_gzip_unwraps() {
    let body = BASE64.encode(gzip(b"{\"a\":1}"));
    assert_eq!(decode(body.as_bytes(), false, None).unwrap(), "{\"a\":1}");
}

#[test]
fn base64_wrapped_json_unwraps() {
    let body = BASE64.encode(b"{\"a\":1}");
    assert_eq!(decode(body.as_bytes(), false, None).unwrap(), "{\"a\":1}");
}

#[test]
fn lz64_with_hint() {
    let compressed = lz_str::compress_to_base64("{\"a\":1}");
    assert_eq!(
        decode(compressed.as_bytes(), false, Some("lz64")).unwrap(),
        "{\"a\":1}"
    );
}

#[test]
fn lz64_output_is_stopped_at_the_decoded_byte_budget() {
    let input = "x".repeat(1025);
    let compressed = lz_str::compress_to_base64(&input);
    assert_eq!(
        decompress_lz64_bounded(&compressed, 1024),
        Err(DecodeError::TooLarge)
    );
}

#[test]
fn form_encoded_beacon_path() {
    let json = b"{\"a\":1}";
    let data = BASE64
        .encode(json)
        .replace('+', "%2B")
        .replace('/', "%2F")
        .replace('=', "%3D");
    let body = format!("data={data}&compression=base64");
    assert_eq!(decode(body.as_bytes(), true, None).unwrap(), "{\"a\":1}");
}

#[test]
fn form_encoded_plus_space_quirk_restored() {
    let body = "data=Pj4 ";
    assert_eq!(decode(body.as_bytes(), true, None).unwrap(), ">>>");
}

#[test]
fn gzip_bomb_hits_ceiling() {
    let zeros = vec![0u8; MAX_DECOMPRESSED_BYTES + 1];
    let bomb = gzip(&zeros);
    assert_eq!(decode(&bomb, false, None), Err(DecodeError::TooLarge));
}

#[test]
fn garbage_is_undecodable() {
    assert_eq!(
        decode(&[0xff, 0xfe, 0x01], false, None),
        Err(DecodeError::Undecodable)
    );
}

#[test]
fn lz64_reads_back_what_was_compressed() {
    let texts = [
        String::new(),
        "a".to_string(),
        "ababababababababab".to_string(),
        "{\"event\":\"caf\u{e9} \u{1f994}\",\"n\":12345}".to_string(),
        "the quick brown fox jumps over the lazy dog ".repeat(40),
    ];
    for text in texts {
        let compressed = lz_str::compress_to_base64(&text);
        assert_eq!(decompress_lz64_bounded(&compressed, 1 << 20), Ok(text));
    }
}

#[test]
fn lz64_takes_exactly_its_budget() {
    let input = "x".repeat(1024);
    let compressed = lz_str::compress_to_base64(&input);
    assert_eq!(decompress_lz64_bounded(&compressed, 1024), Ok(input));
}

#[test]
fn a_truncated_gzip_body_is_undecodable() {
    let body = gzip(b"{\"a\":1}");
    assert_eq!(
        decode(&body[..body.len() - 9], false, None),
        Err(DecodeError::Undecodable)
    );
}

#[test]
fn the_pieces_of_decoding() {
    assert!(has_gzip_magic(&[0x1f, 0x8b, 8]));
    assert!(!has_gzip_magic(&[0x1f]));
    assert!(looks_like_base64(b"Pj4+"));
    assert!(!looks_like_base64(b"{\"a\":1}"));
    assert_eq!(urlencoding_decode("a%2Bb+c"), Ok("a+b c".to_string()));
    assert_eq!(urlencoding_decode("%ff"), Err(DecodeError::Undecodable));
    assert_eq!(
        parse_form(b"x=1&data=abc&compression=gzip-js"),
        Ok((b"abc".to_vec(), Some("gzip-js".to_string())))
    );
    assert_eq!(parse_form(b"x=1"), Err(DecodeError::Undecodable));
    assert_eq!(split_text("a;;b", ';'), ["a", "", "b"]);
    assert_eq!(split_text("", ';'), [""]);
}

#[test]
fn lz64_budgets_only_refuse() {
    let input = "caf\u{e9} \u{1f994} ".repeat(20);
    let compressed = lz_str::compress_to_base64(&input);
    for budget in [input.len(), input.len() + 1, usize::MAX] {
        assert_eq!(decompress_lz64_bounded(&compressed, budget), Ok(input.clone()));
    }
    for budget in 0..input.len() {
        assert_eq!(decompress_lz64_bounded(&compressed, budget), Err(DecodeError::TooLarge));
    }
}
