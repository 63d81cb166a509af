use compression_platform::api::handlers::{
    base64_decode, decode_base64_bytes, list_algorithms, request_input_bytes, CompressRequest,
    RequestError, MAX_INPUT_BYTES,
};
use compression_platform::pipeline::compression_pipeline::PipelineConfig;

fn request(input: &str, is_base64: bool) -> CompressRequest {
    CompressRequest { input: input.to_string(), is_base64, config: PipelineConfig::default() }
}

#[test]
fn base64_decodes_groups_and_padding() {
    assert_eq!(base64_decode("SGVsbG8="), Ok(b"Hello".to_vec()));
    assert_eq!(base64_decode("SGVsbG8h"), Ok(b"Hello!".to_vec()));
    assert_eq!(base64_decode("SGk="), Ok(b"Hi".to_vec()));
    assert_eq!(base64_decode("SA=="), Ok(b"H".to_vec()));
    assert_eq!(base64_decode("+/+/"), Ok(vec![0xFB, 0xFF, 0xBF]));
    assert_eq!(base64_decode(""), Ok(Vec::new()));
}

#[test]
fn base64_trims_surrounding_white_space() {
    assert_eq!(base64_decode("  QUJD\n"), Ok(b"ABC".to_vec()));
    assert_eq!(base64_decode(" \t\r\n "), Ok(Vec::new()));
}

#[test]
fn base64_errors() {
    assert_eq!(base64_decode("QUJ"), Err("Invalid base64 length".to_string()));
    assert_eq!(base64_decode("QU*D"), Err("Invalid base64 character: *".to_string()));
    assert_eq!(base64_decode("QUJDQ!J*"), Err("Invalid base64 character: !".to_string()));
    assert_eq!(base64_decode("QU JD"), Err("Invalid base64 length".to_string()));
    assert_eq!(decode_base64_bytes(&[b'Q', b'U', 0xE9, b'D']), Err("Invalid base64 character: é".to_string()));
}

#[test]
fn base64_padding_counts_as_zero_in_the_middle() {
    assert_eq!(decode_base64_bytes(b"A=BC"), Ok(vec![0x00, 0x00, 0x42]));
}

#[test]
fn request_bytes_of_text_and_base64() {
    assert_eq!(request_input_bytes(&request("héllo", false)).unwrap(), "héllo".as_bytes().to_vec());
    assert_eq!(request_input_bytes(&request(" aGk= ", true)).unwrap(), b"hi".to_vec());
    match request_input_bytes(&request("a", true)) {
        Err(RequestError::InvalidBase64(m)) => assert_eq!(m, "Invalid base64 length"),
        other => panic!("unexpected {:?}", other),
    }
}

#[test]
fn request_bytes_over_the_limit() {
    let big = "a".repeat(MAX_INPUT_BYTES + 1);
    assert!(matches!(request_input_bytes(&request(&big, false)), Err(RequestError::TooLarge)));
}

#[test]
fn algorithm_list_names_and_parameters() {
    let list = list_algorithms();
    let names: Vec<&str> = list.iter().map(|a| a.name.as_str()).collect();
    assert_eq!(names, vec!["Markov Chain", "LZ77", "LZMA", "Huffman (Layer 1)", "Huffman (Layer 2)"]);
    assert_eq!(list[1].configurable_params.len(), 2);
    assert_eq!(list[1].configurable_params[0].name, "window_size");
    assert_eq!(list[1].configurable_params[0].default_value, "4096");
    assert_eq!(list[2].configurable_params[1].name, "min_match_length");
    assert_eq!(list[2].configurable_params[1].default_value, "3");
    assert_eq!(list[0].configurable_params[0].param_type, "integer");
    assert!(list[3].configurable_params.is_empty());
    assert!(list[4].description.starts_with("Second Huffman pass"));
}

#[test]
fn base64_trims_unicode_white_space_only() {
    assert_eq!(base64_decode("\u{3000}QUJD\u{00A0}\u{2028}\u{85}"), Ok(b"ABC".to_vec()));
    assert_eq!(base64_decode("\u{2000}\u{200A}\u{202F}\u{205F}\u{1680}SGk=\u{2029}"), Ok(b"Hi".to_vec()));
    // U+200B (zero width space) is not white space, so its first byte 0xE2 is decoded and refused.
    assert_eq!(base64_decode("\u{200B}Q"), Err("Invalid base64 character: \u{E2}".to_string()));
}

#[test]
fn base64_output_length_drops_one_byte_per_padding_place() {
    assert_eq!(decode_base64_bytes(b"QUJDRA==").unwrap().len(), 6 - 2);
    assert_eq!(decode_base64_bytes(b"QUJDREU=").unwrap().len(), 6 - 1);
    assert_eq!(decode_base64_bytes(b"QQ=A"), Ok(vec![0x41, 0x00]));
    assert_eq!(decode_base64_bytes(b"QQ=="), Ok(vec![0x41]));
    assert_eq!(decode_base64_bytes(b"===="), Ok(vec![0x00]));
}

fn standard_base64(bytes: &[u8]) -> String {
    const ALPHABET: &[u8] = b"ABCDEFGHIJKLMNOPQRSTUVWXYZabcdefghijklmnopqrstuvwxyz0123456789+/";
    let mut out = String::new();
    for chunk in bytes.chunks(3) {
        let b0 = chunk[0] as u32;
        let b1 = if chunk.len() > 1 { chunk[1] as u32 } else { 0 };
        let b2 = if chunk.len() > 2 { chunk[2] as u32 } else { 0 };
        let n = (b0 << 16) | (b1 << 8) | b2;
        out.push(ALPHABET[(n >> 18) as usize & 63] as char);
        out.push(ALPHABET[(n >> 12) as usize & 63] as char);
        out.push(if chunk.len() > 1 { ALPHABET[(n >> 6) as usize & 63] as char } else { '=' });
        out.push(if chunk.len() > 2 { ALPHABET[n as usize & 63] as char } else { '=' });
    }
    out
}

#[test]
fn base64_decodes_the_standard_encoding_back() {
    let all: Vec<u8> = (0..=255u8).collect();
    for len in 0..=7usize {
        for start in 0..=(256 - len) {
            let bytes = &all[start..start + len];
            assert_eq!(base64_decode(&standard_base64(bytes)), Ok(bytes.to_vec()));
        }
    }
    assert_eq!(standard_base64(b"Hi"), "SGk=");
}
