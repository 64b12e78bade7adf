use cardboard::codec::{decode_rect, encode_rect};
use cardboard::errors::StoreError;

#[test]
fn encode_basic_ring() {
    let text = encode_rect(0, 0, 10, 10);
    assert_eq!(text, b"POLYGON((0 0, 10 0, 10 10, 0 10, 0 0))".to_vec());
}

#[test]
fn encode_negative_origin() {
    let text = encode_rect(-3, -4, 5, 6);
    assert_eq!(text, b"POLYGON((-3 -4, 2 -4, 2 2, -3 2, -3 -4))".to_vec());
}

#[test]
fn encode_zero_size() {
    let text = encode_rect(7, -2, 0, 0);
    assert_eq!(text, b"POLYGON((7 -2, 7 -2, 7 -2, 7 -2, 7 -2))".to_vec());
}

#[test]
fn round_trip_representative_values() {
    let cases: &[(i64, i64, i64, i64)] = &[
        (0, 0, 10, 10),
        (-5, -7, 0, 0),
        (7, -2, 0, 9),
        (-1, -1, -3, -4),
        (123456789012345, -987654321098765, 42, -42),
        (i64::MAX - 10, i64::MIN + 10, 5, -5),
    ];
    for &(x, y, w, h) in cases {
        let text = encode_rect(x, y, w, h);
        assert_eq!(decode_rect(&text), Ok((x, y, w, h)));
    }
}

#[test]
fn decode_accepts_leading_zeros() {
    let text = b"POLYGON((00 0, 10 0, 10 10, 0 10, 00 0))".to_vec();
    assert_eq!(decode_rect(&text), Ok((0, 0, 10, 10)));
}

#[test]
fn decode_rejects_empty_text() {
    assert_eq!(decode_rect(&Vec::new()), Err(StoreError::InvalidGeometry));
}

#[test]
fn decode_rejects_truncated_text() {
    let text = b"POLYGON((".to_vec();
    assert_eq!(decode_rect(&text), Err(StoreError::InvalidGeometry));
}

#[test]
fn decode_rejects_short_ring() {
    let text = b"POLYGON((1 2, 3 4))".to_vec();
    assert_eq!(decode_rect(&text), Err(StoreError::InvalidGeometry));
}

#[test]
fn decode_rejects_open_ring() {
    let text = b"POLYGON((0 0, 1 0, 1 1, 0 1, 9 9))".to_vec();
    assert_eq!(decode_rect(&text), Err(StoreError::InvalidGeometry));
}

#[test]
fn decode_rejects_non_rectangle_ring() {
    let text = b"POLYGON((0 0, 2 1, 2 2, 0 2, 0 0))".to_vec();
    assert_eq!(decode_rect(&text), Err(StoreError::InvalidGeometry));
}

#[test]
fn decode_rejects_overflowing_coordinate() {
    let text = b"POLYGON((99999999999999999999 0, 1 0, 1 1, 0 1, 99999999999999999999 0))"
        .to_vec();
    assert_eq!(decode_rect(&text), Err(StoreError::InvalidGeometry));
}

#[test]
fn decode_rejects_trailing_bytes() {
    let text = b"POLYGON((0 0, 10 0, 10 10, 0 10, 0 0)) ".to_vec();
    assert_eq!(decode_rect(&text), Err(StoreError::InvalidGeometry));
}

#[test]
fn decode_rejects_missing_sign_digits() {
    let text = b"POLYGON((- 0, 10 0, 10 10, 0 10, - 0))".to_vec();
    assert_eq!(decode_rect(&text), Err(StoreError::InvalidGeometry));
}
