use slidy_tool::{decode_table, encode_table};

#[test]
fn round_trip() {
    let payload: Vec<u8> = (0u8..=255).collect();
    let file = encode_table(&payload);
    assert_eq!(file.len(), payload.len() + 8);
    assert_eq!(decode_table(&file), Some(payload));
}

#[test]
fn round_trip_empty_payload() {
    let payload: Vec<u8> = Vec::new();
    let file = encode_table(&payload);
    assert_eq!(file.len(), 8);
    assert_eq!(decode_table(&file), Some(payload));
}

#[test]
fn corrupt_payload_byte_is_rejected() {
    let payload: Vec<u8> = vec![1, 2, 3, 4, 5];
    let mut file = encode_table(&payload);
    file[2] ^= 0x40;
    assert_eq!(decode_table(&file), None);
}

#[test]
fn corrupt_token_byte_is_rejected() {
    let payload: Vec<u8> = vec![9, 9, 9];
    let mut file = encode_table(&payload);
    let last = file.len() - 1;
    file[last] = file[last].wrapping_add(1);
    assert_eq!(decode_table(&file), None);
}

#[test]
fn truncated_file_is_rejected() {
    let payload: Vec<u8> = vec![7; 40];
    let mut file = encode_table(&payload);
    file.pop();
    assert_eq!(decode_table(&file), None);
}

#[test]
fn short_file_is_rejected() {
    assert_eq!(decode_table(&vec![1, 2, 3]), None);
    assert_eq!(decode_table(&Vec::new()), None);
}

#[test]
fn random_bytes_are_rejected() {
    let garbage: Vec<u8> = (0..64u32).map(|i| (i.wrapping_mul(2654435761) >> 13) as u8).collect();
    assert_eq!(decode_table(&garbage), None);
}
