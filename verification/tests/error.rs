use archive_core::error::Error;

#[test]
fn error_error_from_io() {
    let io_error: std::io::Error = std::io::ErrorKind::TimedOut.into();
    let error: Error = io_error.into();
    assert_eq!(
        "UnexpectedIoError(\"Kind(TimedOut)\")",
        format!("{:?}", error)
    );
}
