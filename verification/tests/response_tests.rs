use cardboard::response::ApiResponse;

#[test]
fn new_ok_wraps_payload() {
    let r: ApiResponse<i64> = ApiResponse::new_ok(200, 7);
    assert_eq!(r.code, 200);
    assert_eq!(r.message, "OK");
    assert_eq!(r.data, Some(7));
}

#[test]
fn new_err_carries_message_without_payload() {
    let r: ApiResponse<i64> = ApiResponse::new_err(500, String::from("boom"));
    assert_eq!(r.code, 500);
    assert_eq!(r.message, "boom");
    assert_eq!(r.data, None);
}
