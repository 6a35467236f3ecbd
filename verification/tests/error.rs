use timezone_data::Error;

#[test]
fn display_messages() {
    assert!(Error::NotFound.message().contains("not found"));
    assert!(Error::BadPosixTz("bad").message().contains("POSIX"));
    assert!(Error::BadPosixTz("bad").message().contains("bad"));
}
