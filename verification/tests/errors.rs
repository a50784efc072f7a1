use gpt::error::io_message;
use gpt::header::HeaderError;
use gpt::GptError;

#[test]
fn errors_in_words() {
    assert_eq!(
        GptError::CreatingInitializedDisk.message(),
        "we were expecting to read an existing partition table, but instead we're attempting to create a new blank table"
    );
    assert_eq!(GptError::Overflow("too much").message(), "GTP error Overflow: too much");
    assert_eq!(GptError::NotEnoughSpace.message(), "Unable to find enough space on drive");
    assert_eq!(GptError::ReadOnly.message(), "disk not opened in writable mode");
    assert_eq!(GptError::NotInitialized.message(), "try to initialize the disk first");
    assert_eq!(GptError::OverflowPartitionCount.message(), "not enough partition slots");
}

#[test]
fn header_errors_are_wrapped() {
    let e = GptError::from(HeaderError { text: "bad checksum".to_string() });
    assert!(matches!(e, GptError::Header(_)));
    assert_eq!(e.message(), "GPT Header Error: bad checksum");
}

#[test]
fn io_errors_are_wrapped() {
    let e = GptError::from(std::io::Error::new(std::io::ErrorKind::Other, "gone".to_string()));
    assert!(matches!(e, GptError::Io(_)));
    assert_eq!(e.message(), "GPT IO Error: gone");
    assert_eq!(io_message("gone"), "GPT IO Error: gone");
}
