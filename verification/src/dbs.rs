//! Errors of the durable store that backs a node, and their translation
//! into the error messages sent back over the network. The store itself is
//! an outside collaborator; these are the protocol-visible shapes of its
//! failures.

use vstd::prelude::*;
use crate::name::Name;

verus! {

/// What went wrong with a piece of network data, as far as the conversion
/// to an outbound message reads it.
#[derive(Debug)]
pub enum DataError {
    /// The addressed data is not held.
    NoSuchData(Name),
    /// The addressed chunk is not held.
    NoSuchChunk(Name),
    /// Any other data fault, with its description.
    Other(String),
}

/// What can go wrong at the durable store.
#[derive(Debug)]
pub enum Error {
    /// A store key could not be built.
    CouldNotConvertDbKey,
    /// A store key could not be read back.
    CouldNotDecodeDbKey(String),
    /// No space is left to store the value.
    NotEnoughSpace,
    /// No record under this key.
    KeyNotFound(String),
    /// No value for this key.
    NoSuchValue(String),
    /// The data id is not tracked.
    DataIdNotFound(Name),
    /// Public data cannot be deleted.
    CannotDeletePublicData(Name),
    /// No such data is held.
    NoSuchData(Name),
    /// No chunk under this name.
    ChunkNotFound(Name),
    /// The chunk already exists at this node.
    DataExists,
    /// The offered owner key is not a valid owner.
    InvalidOwner(Vec<u8>),
    /// A store was loaded but found invalid.
    InvalidStore,
    /// The offered key could not validate a signature.
    InvalidSignature(Vec<u8>),
    /// A value could not be written out.
    Serialize(String),
    /// A value could not be read back.
    Deserialize(String),
    /// A scratch directory could not be made.
    TempDirCreationFailed(String),
    /// The store's input or output failed.
    Io(String),
    /// The store's encoder failed.
    Encoding(String),
    /// A store key held unexpected bytes.
    CouldNotParseDbKey(Vec<u8>),
    /// No operation id could be derived.
    NoOperationId,
    /// The store engine failed.
    Engine(String),
    /// Batched store operations failed.
    EngineBatching,
    /// Network data handling failed.
    NetworkData(DataError),
}

/// The error messages a node sends back over the network for store
/// failures.
#[derive(Debug)]
pub enum ErrorMessage {
    /// Writing to durable storage failed.
    FailedToWriteFile,
    /// The addressed data is not held.
    DataNotFound(Name),
    /// The addressed chunk is not held.
    ChunkNotFound(Name),
    /// The data already exists.
    DataExists,
    /// The operation failed for a local reason, described as far as the
    /// error carried a description.
    InvalidOperation(String),
}

/// Converts a store error to the error message sent over the network:
/// storage-space and scratch-file failures report a failed write; missing
/// data reports what is missing, a network-data fault included; anything
/// else is a failed local operation carrying whatever description the
/// error held.
pub fn convert_to_error_message(error: Error) -> (r: ErrorMessage)
    ensures
        match error {
            Error::NotEnoughSpace => r is FailedToWriteFile,
            Error::TempDirCreationFailed(_) => r is FailedToWriteFile,
            Error::DataIdNotFound(a) => r matches ErrorMessage::DataNotFound(n) && n@ == a@,
            Error::NoSuchData(a) => r matches ErrorMessage::DataNotFound(n) && n@ == a@,
            Error::ChunkNotFound(x) => r matches ErrorMessage::ChunkNotFound(n) && n@ == x@,
            Error::DataExists => r is DataExists,
            Error::NetworkData(d) => match d {
                DataError::NoSuchData(a) => r matches ErrorMessage::DataNotFound(n) && n@ == a@,
                DataError::NoSuchChunk(x) => r matches ErrorMessage::ChunkNotFound(n) && n@ == x@,
                DataError::Other(s) => r matches ErrorMessage::InvalidOperation(t) && t@ == s@,
            },
            Error::CouldNotDecodeDbKey(s) => r matches ErrorMessage::InvalidOperation(t) && t@
                == s@,
            Error::KeyNotFound(s) => r matches ErrorMessage::InvalidOperation(t) && t@ == s@,
            Error::NoSuchValue(s) => r matches ErrorMessage::InvalidOperation(t) && t@ == s@,
            Error::Serialize(s) => r matches ErrorMessage::InvalidOperation(t) && t@ == s@,
            Error::Deserialize(s) => r matches ErrorMessage::InvalidOperation(t) && t@ == s@,
            Error::Io(s) => r matches ErrorMessage::InvalidOperation(t) && t@ == s@,
            Error::Encoding(s) => r matches ErrorMessage::InvalidOperation(t) && t@ == s@,
            Error::Engine(s) => r matches ErrorMessage::InvalidOperation(t) && t@ == s@,
            _ => r matches ErrorMessage::InvalidOperation(t) && t@ == Seq::<char>::empty(),
        },
{
    match error {
        Error::NotEnoughSpace => ErrorMessage::FailedToWriteFile,
        Error::TempDirCreationFailed(_) => ErrorMessage::FailedToWriteFile,
        Error::DataIdNotFound(address) => ErrorMessage::DataNotFound(address),
        Error::NoSuchData(address) => ErrorMessage::DataNotFound(address),
        Error::ChunkNotFound(name) => ErrorMessage::ChunkNotFound(name),
        Error::DataExists => ErrorMessage::DataExists,
        Error::NetworkData(data_error) => match data_error {
            DataError::NoSuchData(address) => ErrorMessage::DataNotFound(address),
            DataError::NoSuchChunk(name) => ErrorMessage::ChunkNotFound(name),
            DataError::Other(text) => ErrorMessage::InvalidOperation(text),
        },
        Error::CouldNotDecodeDbKey(text) => ErrorMessage::InvalidOperation(text),
        Error::KeyNotFound(text) => ErrorMessage::InvalidOperation(text),
        Error::NoSuchValue(text) => ErrorMessage::InvalidOperation(text),
        Error::Serialize(text) => ErrorMessage::InvalidOperation(text),
        Error::Deserialize(text) => ErrorMessage::InvalidOperation(text),
        Error::Io(text) => ErrorMessage::InvalidOperation(text),
        Error::Encoding(text) => ErrorMessage::InvalidOperation(text),
        Error::Engine(text) => ErrorMessage::InvalidOperation(text),
        _ => ErrorMessage::InvalidOperation(String::new()),
    }
}

} // verus!
