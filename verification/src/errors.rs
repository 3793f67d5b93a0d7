//! Error taxonomy of the storage layer and of configuration handling.

use vstd::prelude::*;

verus! {

/// Errors surfaced by the datastore abstraction.
///
/// Every error is an explicit return value; only `TxnConflict` is ever
/// retried, and only by the retry coordinator, up to its configured bound.
#[derive(Clone, Copy, Debug, PartialEq, Eq, Structural)]
pub enum StoreError {
    /// The requested key is absent; expected in normal control flow.
    NotFound,
    /// A mutation was attempted on a read-only transaction.
    ReadOnly,
    /// A malformed range query; never retried.
    InvalidQuery,
    /// An operation on a transaction (or cursor) whose session has ended.
    TransactionClosed,
    /// An optimistic-commit conflict.
    TxnConflict,
    /// An underlying storage failure; never retried automatically.
    BackendIO,
    /// An unknown backend selection at construction time.
    InvalidDatastoreType,
}

/// Errors of configuration loading and validation.
#[derive(Clone, Debug, PartialEq, Eq)]
pub enum ConfigError {
    FailedToWriteFile(String),
    FailedToRemoveConfigFile,
    PathCannotBeHomeDir,
    UnableToExpandHomeDir,
    NoDatabaseURLProvided,
    InvalidDatabaseURL,
    LoggingConfigNotObtained,
    FailedToValidateConfig,
    InvalidRPCTimeout(String),
    InvalidRPCMaxConnectionIdle(String),
    InvalidP2PAddress(String, String),
    InvalidRPCAddress(String),
    InvalidBootstrapPeers(String, String),
    InvalidLogLevel(String),
    InvalidDatastoreType(String),
    OverrideConfigConvertFailed(String),
    InvalidLogFormat(String),
    ConfigToJSONFailed,
    InvalidNamedLoggerName(String),
    ConfigTemplateFailed,
    CouldNotObtainLoggerConfig(String, String),
    NotProvidedAsKV(String),
    CouldNotParseType(String),
    UnknownLoggerParameter(String),
    InvalidLoggerName(String),
    DuplicateLoggerName(String),
    ReadingConfigFile,
    LoadingConfig,
    UnableToParseByteSize,
    InvalidLoggerConfig(String),
    InvalidDatastorePath(String),
    MissingPortNumber,
    NoPortWithDomain,
    InvalidRootDir(String),
    Custom(String),
}

/// Errors of the on-disk backend adapter.
#[derive(Clone, Debug, PartialEq, Eq)]
pub enum BadgerError {
    InvalidOrderType(String),
}

} // verus!
