//! What can go wrong with a disk.

use vstd::prelude::*;

use crate::header::HeaderError;

verus! {

/// An error of the operating system or of a device.
#[verifier::external_type_specification]
#[verifier::external_body]
pub struct ExIoError(std::io::Error);

/// Errors returned when working with a disk.
#[non_exhaustive]
#[derive(Debug)]
pub enum GptError {
    /// Reading or writing the device failed.
    Io(std::io::Error),
    /// A header could not be read, built or written.
    Header(HeaderError),
    /// A blank table was asked for on a disk that is said to hold one already.
    CreatingInitializedDisk,
    /// A number is outside the range that the table can hold.
    Overflow(&'static str),
    /// No stretch of free blocks is large enough.
    NotEnoughSpace,
    /// The disk was not opened for writing.
    ReadOnly,
    /// The disk has no table to write yet.
    NotInitialized,
    /// There are more partitions in use than the header has room for.
    OverflowPartitionCount,
}

/// The error that [`std::io::Error::new`] makes of the kind
/// [`std::io::ErrorKind::Other`] and a text.
pub uninterp spec fn other_io_error(text: Seq<char>) -> std::io::Error;

/// Makes an I/O error that carries `text`, with [`std::io::Error::new`] and the
/// kind [`std::io::ErrorKind::Other`].
///
/// Trusted: the error depends on the text alone.
#[verifier::external_body]
pub(crate) fn io_error_from_text(text: String) -> (error: std::io::Error)
    ensures
        error == other_io_error(text@),
{
    std::io::Error::new(std::io::ErrorKind::Other, text)
}

/// The text of an I/O error, by its `to_string`.
///
/// Trusted: an error that was made of a text is displayed as that text. Of an
/// error of the operating system nothing is claimed: its text is the system's own
/// and may change with its language.
#[verifier::external_body]
pub(crate) fn io_error_text(error: &std::io::Error) -> (text: String)
    ensures
        forall|t: Seq<char>| *error == #[trigger] other_io_error(t) ==> text@ == t,
{
    error.to_string()
}

impl From<std::io::Error> for GptError {
    fn from(e: std::io::Error) -> (error: GptError) {
        GptError::Io(e)
    }
}

impl vstd::std_specs::convert::FromSpecImpl<std::io::Error> for GptError {
    open spec fn obeys_from_spec() -> bool {
        true
    }

    open spec fn from_spec(e: std::io::Error) -> GptError {
        GptError::Io(e)
    }
}

impl From<HeaderError> for GptError {
    fn from(e: HeaderError) -> (error: GptError) {
        GptError::Header(e)
    }
}

impl vstd::std_specs::convert::FromSpecImpl<HeaderError> for GptError {
    open spec fn obeys_from_spec() -> bool {
        true
    }

    open spec fn from_spec(e: HeaderError) -> GptError {
        GptError::Header(e)
    }
}

/// A label followed by a text.
fn labelled(label: &str, text: &str) -> (r: String)
    ensures
        r@ == label@ + text@,
{
    let mut r: String = label.to_owned();
    r.append(text);
    r
}

impl GptError {
    /// Whether `message` is what this error is told as. The words for an I/O
    /// error end in its own text: the one that it was made of, else the one that
    /// the system gives for it.
    pub open spec fn told_as(self, message: Seq<char>) -> bool {
        match self {
            GptError::Io(e) => exists|text: Seq<char>|
                {
                    &&& message == #[trigger] told_as_io(text)
                    &&& forall|t: Seq<char>| e == #[trigger] other_io_error(t) ==> text == t
                },
            GptError::Header(e) => message == "GPT Header Error: "@ + e.text@,
            GptError::CreatingInitializedDisk => message
                == "we were expecting to read an existing partition table, but instead we're attempting to create a new blank table"@,
            GptError::Overflow(m) => message == "GTP error Overflow: "@ + m@,
            GptError::NotEnoughSpace => message == "Unable to find enough space on drive"@,
            GptError::ReadOnly => message == "disk not opened in writable mode"@,
            GptError::NotInitialized => message == "try to initialize the disk first"@,
            GptError::OverflowPartitionCount => message == "not enough partition slots"@,
        }
    }

    /// The error in words.
    pub fn message(&self) -> (r: String)
        ensures
            self.told_as(r@),
    {
        match self {
            GptError::Io(e) => {
                let text: String = io_error_text(e);
                io_message(text.as_str())
            },
            GptError::Header(e) => labelled("GPT Header Error: ", e.text.as_str()),
            GptError::CreatingInitializedDisk => {
                "we were expecting to read an existing partition table, but instead we're attempting to create a new blank table".to_owned()
            },
            GptError::Overflow(m) => labelled("GTP error Overflow: ", m),
            GptError::NotEnoughSpace => "Unable to find enough space on drive".to_owned(),
            GptError::ReadOnly => "disk not opened in writable mode".to_owned(),
            GptError::NotInitialized => "try to initialize the disk first".to_owned(),
            GptError::OverflowPartitionCount => "not enough partition slots".to_owned(),
        }
    }
}

/// The words for an I/O error whose own text is `text`.
pub open spec fn told_as_io(text: Seq<char>) -> Seq<char> {
    "GPT IO Error: "@ + text
}

/// The words for an I/O error whose own text is `text`.
pub fn io_message(text: &str) -> (r: String)
    ensures
        r@ == told_as_io(text@),
{
    labelled("GPT IO Error: ", text)
}

} // verus!
