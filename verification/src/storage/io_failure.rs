use vstd::prelude::*;

verus! {

/// The kinds of I/O error that the engines report.
#[derive(Debug, Clone, Copy, PartialEq, Eq, Structural)]
pub enum IoFailure {
    Unsupported,
    InvalidInput,
    InvalidData,
    UnexpectedEof,
}

/// A `std::io::Error` of the given kind carrying `message`, made by `std::io::Error::new`.
/// The error is opaque here: nothing is claimed of it.
#[verifier::external_body]
pub(crate) fn io_error(kind: IoFailure, message: &str) -> std::io::Error {
    let k = match kind {
        IoFailure::Unsupported => std::io::ErrorKind::Unsupported,
        IoFailure::InvalidInput => std::io::ErrorKind::InvalidInput,
        IoFailure::InvalidData => std::io::ErrorKind::InvalidData,
        IoFailure::UnexpectedEof => std::io::ErrorKind::UnexpectedEof,
    };
    std::io::Error::new(k, message)
}

} // verus!
