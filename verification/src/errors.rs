//! The error taxonomy: storage, concurrency, state, network, API and
//! entity errors, each with an exact human-readable report. Entity errors
//! are ordinary control flow; the others are fatal to the call that raised
//! them.

use vstd::prelude::*;

use crate::text::dec_digits;
use crate::text::string_from_chars;
use crate::text::u128_to_dec_chars;

verus! {

/// Any error the application surfaces, by subsystem.
#[derive(Debug)]
pub enum AppError {
    Storage(FileError),
    Concurrency(ConcurrencyError),
    State(StateError),
    Network(NetworkError),
    Api(ApiError),
    Entity(EntityError),
}

/// Errors of the durable file layer.
#[derive(Clone, Copy, Debug, PartialEq, Eq, Structural)]
pub enum FileError {
    /// File not found at the expected location.
    FileNotFound,
    /// File exists but holds invalid data.
    InvalidFile,
    /// File could not be decrypted.
    DecryptionError,
    /// Access to the file was denied.
    AccessDenied,
    /// Writing the file failed.
    FileWriteError,
}

/// Errors of the locking discipline.
#[derive(Clone, Copy, Debug, PartialEq, Eq, Structural)]
pub enum ConcurrencyError {
    /// A lock was poisoned by a panic in the thread that held it.
    PoisonedLock,
}

/// Errors of the in-memory state.
#[derive(Clone, Copy, Debug)]
pub enum StateError {
    /// Internal state is inconsistent or corrupted.
    Inconsistent(&'static str),
    /// The operation would leave the state invalid.
    InvalidOperation(&'static str),
    /// State initialization failed.
    InitializationFailed,
}

/// Errors of the transport under the remote catalog client.
#[derive(Clone, Copy, Debug, PartialEq, Eq, Structural)]
pub enum NetworkError {
    Timeout,
    ConnectionFailed,
    HttpError(u16),
    InvalidResponse,
}

/// Errors the remote catalog reports.
#[derive(Debug)]
pub enum ApiError {
    AuthenticationFailed,
    RateLimitExceeded,
    InvalidRequest(&'static str),
    ResponseError(String),
    VersionMismatch,
}

/// Errors about the entities themselves: ordinary, caller-visible control
/// flow.
#[derive(Debug)]
pub enum EntityError {
    /// No folder bears the given name.
    FolderNotFound(String),
    /// No world bears the given identifier.
    WorldNotFound(String),
    /// A folder of the given name already exists.
    DuplicateFolder(String),
    /// The world already sits in the folder.
    DuplicateWorld(String),
    /// The operation is not valid in the current state.
    InvalidOperation(String),
    /// The given text does not parse as a timestamp.
    InvalidTimestamp(String),
}

/// Errors of services that only report a lock failure.
pub enum ServiceErrors {
    LockError,
}

impl FileError {
    /// What [`FileError::message`] reads as.
    pub open spec fn message_spec(&self) -> Seq<char> {
        match self {
            FileError::FileNotFound => "file not found"@,
            FileError::InvalidFile => "invalid format"@,
            FileError::DecryptionError => "failed to decrypt file"@,
            FileError::AccessDenied => "access to file denied"@,
            FileError::FileWriteError => "failed to write file"@,
        }
    }

    /// The error's human-readable report.
    pub fn message(&self) -> (r: String)
        ensures
            r@ == self.message_spec(),
    {
        match self {
            FileError::FileNotFound => String::from_str("file not found"),
            FileError::InvalidFile => String::from_str("invalid format"),
            FileError::DecryptionError => String::from_str("failed to decrypt file"),
            FileError::AccessDenied => String::from_str("access to file denied"),
            FileError::FileWriteError => String::from_str("failed to write file"),
        }
    }
}

impl ConcurrencyError {
    /// What [`ConcurrencyError::message`] reads as.
    pub open spec fn message_spec(&self) -> Seq<char> {
        "mutex lock was poisoned"@
    }

    /// The error's human-readable report.
    pub fn message(&self) -> (r: String)
        ensures
            r@ == self.message_spec(),
    {
        String::from_str("mutex lock was poisoned")
    }
}

impl StateError {
    /// What [`StateError::message`] reads as.
    pub open spec fn message_spec(&self) -> Seq<char> {
        match self {
            StateError::Inconsistent(m) => "state inconsistency: "@ + m@,
            StateError::InvalidOperation(m) => "invalid operation: "@ + m@,
            StateError::InitializationFailed => "state initialization failed"@,
        }
    }

    /// The error's human-readable report.
    pub fn message(&self) -> (r: String)
        ensures
            r@ == self.message_spec(),
    {
        match self {
            StateError::Inconsistent(m) => String::from_str("state inconsistency: ").concat(m),
            StateError::InvalidOperation(m) => String::from_str("invalid operation: ").concat(m),
            StateError::InitializationFailed => String::from_str("state initialization failed"),
        }
    }
}

impl NetworkError {
    /// What [`NetworkError::message`] reads as; an HTTP failure names its
    /// status code in decimal.
    pub open spec fn message_spec(&self) -> Seq<char> {
        match self {
            NetworkError::Timeout => "network timeout"@,
            NetworkError::ConnectionFailed => "connection failed"@,
            NetworkError::HttpError(code) => "HTTP error "@ + dec_digits(code as nat),
            NetworkError::InvalidResponse => "invalid response"@,
        }
    }

    /// The error's human-readable report.
    pub fn message(&self) -> (r: String)
        ensures
            r@ == self.message_spec(),
    {
        match self {
            NetworkError::Timeout => String::from_str("network timeout"),
            NetworkError::ConnectionFailed => String::from_str("connection failed"),
            NetworkError::HttpError(code) => {
                let digits = u128_to_dec_chars(*code as u128);
                String::from_str("HTTP error ").concat(
                    string_from_chars(digits.as_slice()).as_str(),
                )
            },
            NetworkError::InvalidResponse => String::from_str("invalid response"),
        }
    }
}

impl ApiError {
    /// What [`ApiError::message`] reads as.
    pub open spec fn message_spec(&self) -> Seq<char> {
        match self {
            ApiError::AuthenticationFailed => "authentication failed"@,
            ApiError::RateLimitExceeded => "rate limit exceeded"@,
            ApiError::InvalidRequest(m) => "invalid request: "@ + m@,
            ApiError::ResponseError(m) => "API error: "@ + m@,
            ApiError::VersionMismatch => "API version mismatch"@,
        }
    }

    /// The error's human-readable report.
    pub fn message(&self) -> (r: String)
        ensures
            r@ == self.message_spec(),
    {
        match self {
            ApiError::AuthenticationFailed => String::from_str("authentication failed"),
            ApiError::RateLimitExceeded => String::from_str("rate limit exceeded"),
            ApiError::InvalidRequest(m) => String::from_str("invalid request: ").concat(m),
            ApiError::ResponseError(m) => String::from_str("API error: ").concat(m.as_str()),
            ApiError::VersionMismatch => String::from_str("API version mismatch"),
        }
    }
}

impl EntityError {
    /// What [`EntityError::message`] reads as, naming the entity concerned.
    pub open spec fn message_spec(&self) -> Seq<char> {
        match self {
            EntityError::FolderNotFound(n) => "folder not found: "@ + n@,
            EntityError::WorldNotFound(n) => "world not found: "@ + n@,
            EntityError::DuplicateFolder(n) => "duplicate folder: "@ + n@,
            EntityError::DuplicateWorld(n) => "duplicate world: "@ + n@,
            EntityError::InvalidOperation(n) => "invalid operation: "@ + n@,
            EntityError::InvalidTimestamp(n) => "invalid timestamp format: "@ + n@,
        }
    }

    /// The error's human-readable report.
    pub fn message(&self) -> (r: String)
        ensures
            r@ == self.message_spec(),
    {
        match self {
            EntityError::FolderNotFound(n) => String::from_str("folder not found: ").concat(
                n.as_str(),
            ),
            EntityError::WorldNotFound(n) => String::from_str("world not found: ").concat(
                n.as_str(),
            ),
            EntityError::DuplicateFolder(n) => String::from_str("duplicate folder: ").concat(
                n.as_str(),
            ),
            EntityError::DuplicateWorld(n) => String::from_str("duplicate world: ").concat(
                n.as_str(),
            ),
            EntityError::InvalidOperation(n) => String::from_str("invalid operation: ").concat(
                n.as_str(),
            ),
            EntityError::InvalidTimestamp(n) => String::from_str(
                "invalid timestamp format: ",
            ).concat(n.as_str()),
        }
    }
}

impl AppError {
    /// What [`AppError::message`] reads as: the subsystem's prefix, then
    /// the inner report.
    pub open spec fn message_spec(&self) -> Seq<char> {
        match self {
            AppError::Storage(e) => "Storage error: "@ + e.message_spec(),
            AppError::Concurrency(e) => "Concurrency error: "@ + e.message_spec(),
            AppError::State(e) => "State error: "@ + e.message_spec(),
            AppError::Network(e) => "Network error: "@ + e.message_spec(),
            AppError::Api(e) => "API error: "@ + e.message_spec(),
            AppError::Entity(e) => "Entity error: "@ + e.message_spec(),
        }
    }

    /// The error's human-readable report, prefixed by its subsystem.
    pub fn message(&self) -> (r: String)
        ensures
            r@ == self.message_spec(),
    {
        match self {
            AppError::Storage(e) => String::from_str("Storage error: ").concat(
                e.message().as_str(),
            ),
            AppError::Concurrency(e) => String::from_str("Concurrency error: ").concat(
                e.message().as_str(),
            ),
            AppError::State(e) => String::from_str("State error: ").concat(e.message().as_str()),
            AppError::Network(e) => String::from_str("Network error: ").concat(
                e.message().as_str(),
            ),
            AppError::Api(e) => String::from_str("API error: ").concat(e.message().as_str()),
            AppError::Entity(e) => String::from_str("Entity error: ").concat(e.message().as_str()),
        }
    }
}

impl From<FileError> for AppError {
    fn from(error: FileError) -> AppError {
        AppError::Storage(error)
    }
}

impl vstd::std_specs::convert::FromSpecImpl<FileError> for AppError {
    open spec fn obeys_from_spec() -> bool {
        true
    }

    open spec fn from_spec(error: FileError) -> AppError {
        AppError::Storage(error)
    }
}

impl From<ConcurrencyError> for AppError {
    fn from(error: ConcurrencyError) -> AppError {
        AppError::Concurrency(error)
    }
}

impl vstd::std_specs::convert::FromSpecImpl<ConcurrencyError> for AppError {
    open spec fn obeys_from_spec() -> bool {
        true
    }

    open spec fn from_spec(error: ConcurrencyError) -> AppError {
        AppError::Concurrency(error)
    }
}

impl From<StateError> for AppError {
    fn from(error: StateError) -> AppError {
        AppError::State(error)
    }
}

impl vstd::std_specs::convert::FromSpecImpl<StateError> for AppError {
    open spec fn obeys_from_spec() -> bool {
        true
    }

    open spec fn from_spec(error: StateError) -> AppError {
        AppError::State(error)
    }
}

impl From<NetworkError> for AppError {
    fn from(error: NetworkError) -> AppError {
        AppError::Network(error)
    }
}

impl vstd::std_specs::convert::FromSpecImpl<NetworkError> for AppError {
    open spec fn obeys_from_spec() -> bool {
        true
    }

    open spec fn from_spec(error: NetworkError) -> AppError {
        AppError::Network(error)
    }
}

impl From<ApiError> for AppError {
    fn from(error: ApiError) -> AppError {
        AppError::Api(error)
    }
}

impl vstd::std_specs::convert::FromSpecImpl<ApiError> for AppError {
    open spec fn obeys_from_spec() -> bool {
        true
    }

    open spec fn from_spec(error: ApiError) -> AppError {
        AppError::Api(error)
    }
}

impl From<EntityError> for AppError {
    fn from(error: EntityError) -> AppError {
        AppError::Entity(error)
    }
}

impl vstd::std_specs::convert::FromSpecImpl<EntityError> for AppError {
    open spec fn obeys_from_spec() -> bool {
        true
    }

    open spec fn from_spec(error: EntityError) -> AppError {
        AppError::Entity(error)
    }
}

} // verus!
