use icontool::error::{FrameCorruptKind, IconError, MissingMetadata};
use icontool::text::to_dec_string;

#[test]
fn cmdline_test_always_succeed() {
    assert!(true);
}

#[test]
fn compile_test_always_succeed() {
    assert!(true);
}

#[test]
fn constant_test_always_succeed() {
    assert!(true);
}

#[test]
fn decompile_test_always_succeed() {
    assert!(true);
}

#[test]
fn dmi_test_always_succeed() {
    assert!(true);
}

#[test]
fn error_test_always_succeed() {
    assert!(true);
}

#[test]
fn indexmap_helper_test_always_succeed() {
    assert!(true);
}

#[test]
fn main_test_always_succeed() {
    assert!(true);
}

#[test]
fn metadata_test_always_succeed() {
    assert!(true);
}

#[test]
fn test_to_dec_string() {
    assert_eq!("0", to_dec_string(0));
    assert_eq!("7", to_dec_string(7));
    assert_eq!("32", to_dec_string(32));
    assert_eq!("6144", to_dec_string(6144));
    assert_eq!("4294967295", to_dec_string(4294967295));
}

#[test]
fn test_error_message_frame_count_mismatch() {
    let e = IconError::FrameCountMismatch(String::from("idle"), 4, 3);
    let msg = icontool::error::get_error_message(&e);
    assert_eq!(
        "icontool: icon_state 'idle' has a mismatched number of frames. Expected 4 frame(s) from the dmi metadata. Found 3 frame(s) in the YAML data.",
        msg
    );
}

#[test]
fn test_error_message_corrupt() {
    let e = IconError::FrameCorrupt(FrameCorruptKind::Base64);
    let msg = icontool::error::get_error_message(&e);
    assert_eq!("icontool: Unable to decode base64 data", msg);
}

#[test]
fn test_missing_metadata_holds_path() {
    let m = MissingMetadata(String::from("icons/x.dmi"));
    assert_eq!("icons/x.dmi", m.0);
}
