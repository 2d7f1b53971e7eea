use xapian_rs::strings::{engine_string_from_text, engine_string_push, text_from_engine};
use xapian_rs::Utf8Error;

#[test]
fn text_round_trips_through_engine_bytes() {
    let bytes = engine_string_from_text("héllo");
    assert_eq!(bytes, "héllo".as_bytes().to_vec());
    let back = text_from_engine(&bytes).unwrap();
    assert_eq!(back, "héllo");
}

#[test]
fn raw_bytes_go_in_unvalidated_and_fail_typed_on_the_way_out() {
    let mut buf = engine_string_from_text("ok");
    engine_string_push(&mut buf, &[0xff, 0xfe]);
    assert_eq!(buf.len(), 4);
    assert_eq!(text_from_engine(&buf), Err(Utf8Error::InvalidEncoding));
}
