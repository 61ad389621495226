use vstd::prelude::*;

verus! {

/// bincode's error kind, carried opaquely inside `StoreError::SerDeError`.
#[verifier::external_type_specification]
#[verifier::external_body]
pub struct ExBincodeErrorKind(bincode::ErrorKind);

/// `std::io::Error`, carried opaquely inside `StoreError::FileSystemError`.
#[verifier::external_type_specification]
#[verifier::external_body]
pub struct ExIoError(std::io::Error);

/// The single error type returned by every fallible store operation.
///
/// The three variants keep engine failures, codec failures and filesystem
/// failures apart, so a caller can tell which layer went wrong.
#[derive(Debug)]
pub enum StoreError {
    /// A failure reported by the storage engine.
    DatabaseError(String),
    /// A codec failure while encoding a value for a write, or while
    /// decoding the bytes read back for a key.
    SerDeError(Box<bincode::ErrorKind>),
    /// A failure to allocate or prepare the backing directory of an
    /// ephemeral store.
    FileSystemError(std::io::Error),
}

} // verus!
