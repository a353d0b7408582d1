use capburn::request::{base64_image, base64_payload, check_bytes, MAX_INPUT_BYTES};

#[test]
fn bytes_up_to_the_limit_are_accepted() {
    assert!(check_bytes(&[]).is_ok());
    assert!(check_bytes(&vec![0; MAX_INPUT_BYTES]).is_ok());
    assert_eq!(
        check_bytes(&vec![0; MAX_INPUT_BYTES + 1]).unwrap_err(),
        "image too large: 8388609 bytes (max 8388608)"
    );
}

#[test]
fn base64_is_decoded() {
    assert_eq!(base64_image("aGVsbG8=").unwrap(), b"hello");
    assert_eq!(base64_image("  aGVsbG8=\n").unwrap(), b"hello");
    assert_eq!(base64_image("").unwrap(), b"");
}

#[test]
fn data_url_is_its_payload() {
    assert_eq!(base64_image("data:image/png;base64,aGVsbG8=").unwrap(), b"hello");
    assert_eq!(base64_image("data:image/png;base64, aGVsbG8= ").unwrap(), b"hello");
    assert_eq!(base64_image("\n data:image/png;base64,\taGVsbG8= \n").unwrap(), b"hello");
    assert_eq!(
        base64_image("data:image/png;charset=utf-8;base64,aGVsbG8=").unwrap(),
        b"hello"
    );
    assert_eq!(base64_payload(";base64,a;base64,b").unwrap(), "a;base64,b");
}

#[test]
fn invalid_base64_is_reported() {
    assert_eq!(
        base64_image("aGVsbG8*").unwrap_err(),
        "invalid base64: Invalid symbol 42, offset 7."
    );
    assert!(base64_image("aGVsbG8").unwrap_err().starts_with("invalid base64: "));
}

#[test]
fn huge_payload_is_rejected_before_decoding() {
    // 4 * 2796203 characters stand for 8388609 bytes
    let text = "A".repeat(4 * 2_796_203);
    assert_eq!(base64_image(&text).unwrap_err(), "image too large (max 8388608 bytes)");
    // up to three characters more than 4 * 2796202 are let through to the decoder
    let text = "A".repeat(4 * 2_796_202);
    assert_eq!(base64_image(&text).unwrap().len(), 8_388_606);
    let text = format!("{}AA==", "A".repeat(4 * 2_796_201));
    assert_eq!(base64_image(&text).unwrap().len(), 8_388_604);
    // the limit counts bytes, and two bytes make one Cyrillic letter
    let text = "я".repeat(2 * 2_796_203);
    assert_eq!(base64_image(&text).unwrap_err(), "image too large (max 8388608 bytes)");
}
