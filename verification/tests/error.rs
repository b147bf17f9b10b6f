use lsm_tree_kv::Error;

#[test]
fn test_message_names_the_kind() {
    assert_eq!(
        Error::Corruption("Key mismatch at indexed offset".to_string()).message(),
        "Corruption: Key mismatch at indexed offset"
    );
    assert_eq!(
        Error::InvalidArgument("unsorted".to_string()).message(),
        "Invalid argument: unsorted"
    );
    assert_eq!(Error::Corruption(String::new()).message(), "Corruption: ");
}

#[test]
fn test_message_of_an_io_error() {
    let err = std::io::Error::new(std::io::ErrorKind::Other, "disk full");
    assert_eq!(Error::Io(err).message(), "I/O error: disk full");
}

#[test]
fn test_from_io_error() {
    let err = std::io::Error::new(std::io::ErrorKind::NotFound, "gone");
    match Error::from(err) {
        Error::Io(inner) => assert_eq!(inner.kind(), std::io::ErrorKind::NotFound),
        _ => panic!("Expected I/O error"),
    }
}
