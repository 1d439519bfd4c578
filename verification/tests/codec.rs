use base64::Engine;
use wasm_utils::base64_to_array_buffer;
use wasm_utils::b64::encode_then_decode;

#[test]
fn decodes_hello() {
    assert_eq!(base64_to_array_buffer("aGVsbG8="), b"hello".to_vec());
}

#[test]
fn malformed_input_degrades_to_empty() {
    assert_eq!(base64_to_array_buffer("not-valid-base64!!"), Vec::<u8>::new());
}

#[test]
fn truncated_input_degrades_to_empty() {
    assert_eq!(base64_to_array_buffer("aGVsbG8"), Vec::<u8>::new());
}

#[test]
fn empty_input_decodes_to_empty() {
    assert_eq!(base64_to_array_buffer(""), Vec::<u8>::new());
}

#[test]
fn round_trip_through_the_library() {
    let bytes: Vec<u8> = vec![0, 1, 2, 3, 250, 251, 252, 253, 254, 255, 42];
    assert_eq!(encode_then_decode(&bytes), bytes);
    assert_eq!(encode_then_decode(&[]), Vec::<u8>::new());
}

#[test]
fn round_trip_from_an_outside_encoder() {
    let bytes: Vec<u8> = (0u16..=255).map(|b| b as u8).collect();
    let encoded = base64::engine::general_purpose::STANDARD.encode(&bytes);
    assert_eq!(base64_to_array_buffer(&encoded), bytes);
}
