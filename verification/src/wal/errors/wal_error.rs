use vstd::prelude::*;

verus! {

/// `std::io::Error`, carried through unread.
#[verifier::external_type_specification]
#[verifier::external_body]
pub struct ExIoError(std::io::Error);

/// What can go wrong reading or writing the log.
#[derive(Debug)]
pub enum WalError {
    IOError(std::io::Error),
    Corrupted(String),
    InvalidMagic,
    UnexpectedEof,
    FileNotFound,
    ChecksumMismatch,
    InvalidHeader(String),
    InvalidPath,
}

} // verus!
