use icontool::codec::{decode_frame, encode_frame};
use icontool::error::{FrameCorruptKind, IconError};
use icontool::text::{join_with, split_on};

#[test]
fn test_frame_round_trip() {
    let mut pixels: Vec<u8> = Vec::new();
    for i in 0..(32 * 32 * 4) {
        pixels.push((i % 251) as u8);
    }
    let transport = encode_frame(&pixels);
    let back = decode_frame(&transport, pixels.len()).unwrap();
    assert_eq!(pixels, back);
}

#[test]
fn test_frame_round_trip_empty() {
    let pixels: Vec<u8> = Vec::new();
    let transport = encode_frame(&pixels);
    let back = decode_frame(&transport, 0).unwrap();
    assert_eq!(pixels, back);
}

#[test]
fn test_decode_truncated_base64_fails() {
    let pixels: Vec<u8> = vec![1, 2, 3, 4, 5, 6, 7, 8];
    let transport = encode_frame(&pixels);
    let truncated = &transport[..transport.len() - 1];
    match decode_frame(truncated, pixels.len()) {
        Err(IconError::FrameCorrupt(FrameCorruptKind::Base64)) => {}
        _ => panic!("expected a base64 decode failure"),
    }
}

#[test]
fn test_decode_invalid_alphabet_fails() {
    match decode_frame("!!!!", 16) {
        Err(IconError::FrameCorrupt(FrameCorruptKind::Base64)) => {}
        _ => panic!("expected a base64 decode failure"),
    }
}

#[test]
fn test_decode_corrupt_block_fails() {
    // valid base64, but not a valid size-prepended compressed block
    match decode_frame("AAAA", 16) {
        Err(IconError::FrameCorrupt(FrameCorruptKind::Decompress)) => {}
        _ => panic!("expected a decompress failure"),
    }
}

#[test]
fn test_decode_size_mismatch_fails() {
    let pixels: Vec<u8> = vec![9; 16];
    let transport = encode_frame(&pixels);
    match decode_frame(&transport, 64) {
        Err(IconError::FrameCorrupt(FrameCorruptKind::SizeMismatch)) => {}
        _ => panic!("expected a size mismatch"),
    }
}

#[test]
fn test_split_and_join_frames() {
    let joined = String::from("aa\nbb\ncc");
    let pieces = split_on(&joined, '\n');
    assert_eq!(vec![String::from("aa"), String::from("bb"), String::from("cc")], pieces);
    assert_eq!(joined, join_with(&pieces, '\n'));
}

#[test]
fn test_split_empty_value_yields_one_empty_piece() {
    let pieces = split_on("", '\n');
    assert_eq!(vec![String::from("")], pieces);
}
