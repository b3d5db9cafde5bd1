use demotracer_converter::error::Error;

#[test]
fn error_messages_name_their_kind() {
    assert_eq!(Error::InvalidDemo("bad".to_string()).message(), "invalid demo data: bad");
    assert_eq!(Error::InvalidRec("short".to_string()).message(), "invalid .dtr: short");
    assert_eq!(Error::Parser("Cancelled".to_string()).message(), "demoparser error: Cancelled");
}
