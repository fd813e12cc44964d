//! The errors that a service reports, and how the failures of the operating
//! system map to them.
use vstd::prelude::*;

verus! {

/// The kinds of failure that an I/O operation reports.
#[derive(Copy, Clone, PartialEq, Eq, Debug, Structural)]
pub enum IoErrorKind {
    NotFound,
    PermissionDenied,
    ConnectionRefused,
    ConnectionReset,
    ConnectionAborted,
    NotConnected,
    AddrInUse,
    AddrNotAvailable,
    BrokenPipe,
    AlreadyExists,
    WouldBlock,
    InvalidInput,
    InvalidData,
    TimedOut,
    WriteZero,
    Interrupted,
    Other,
    UnexpectedEof,
    /// A kind that this library has no name for.
    Unnamed,
}

/// What can go wrong in a service. None of these ends the process: each is
/// the failure of one connection or one message.
#[derive(Copy, Clone, PartialEq, Eq, Debug)]
pub enum MeshError {
    MajorError,
    /// A failure of the network, with what the operating system said of it.
    NetworkError(&'static str),
    /// A value could not be serialised, or bytes are no value of the type.
    BinCodeSerializationError,
    /// A channel between two tasks is full or closed.
    ChannelError,
    /// A task could not be started.
    TaskSpawnError,
    UnknownError,
}

/// The words for a kind of I/O failure, or `None` for a kind without a name.
pub open spec fn io_words(kind: IoErrorKind) -> Option<&'static str> {
    match kind {
        IoErrorKind::NotFound => Some("entity not found"),
        IoErrorKind::PermissionDenied => Some("permission denied"),
        IoErrorKind::ConnectionRefused => Some("connection refused"),
        IoErrorKind::ConnectionReset => Some("connection reset"),
        IoErrorKind::ConnectionAborted => Some("connection aborted"),
        IoErrorKind::NotConnected => Some("not connected"),
        IoErrorKind::AddrInUse => Some("address in use"),
        IoErrorKind::AddrNotAvailable => Some("address not available"),
        IoErrorKind::BrokenPipe => Some("broken pipe"),
        IoErrorKind::AlreadyExists => Some("entity already exists"),
        IoErrorKind::WouldBlock => Some("operation would block"),
        IoErrorKind::InvalidInput => Some("invalid input parameter"),
        IoErrorKind::InvalidData => Some("invalid data"),
        IoErrorKind::TimedOut => Some("timed out"),
        IoErrorKind::WriteZero => Some("write zero"),
        IoErrorKind::Interrupted => Some("operation interrupted"),
        IoErrorKind::Other => Some("other os error"),
        IoErrorKind::UnexpectedEof => Some("unexpected end of file"),
        IoErrorKind::Unnamed => None,
    }
}

impl MeshError {
    /// The error for an I/O failure: a network error with the words for its
    /// kind, or `UnknownError` for a kind without a name.
    pub fn from_io(kind: IoErrorKind) -> (e: MeshError)
        ensures
            e == match io_words(kind) {
                Some(words) => MeshError::NetworkError(words),
                None => MeshError::UnknownError,
            },
    {
        match kind {
            IoErrorKind::NotFound => MeshError::NetworkError("entity not found"),
            IoErrorKind::PermissionDenied => MeshError::NetworkError("permission denied"),
            IoErrorKind::ConnectionRefused => MeshError::NetworkError("connection refused"),
            IoErrorKind::ConnectionReset => MeshError::NetworkError("connection reset"),
            IoErrorKind::ConnectionAborted => MeshError::NetworkError("connection aborted"),
            IoErrorKind::NotConnected => MeshError::NetworkError("not connected"),
            IoErrorKind::AddrInUse => MeshError::NetworkError("address in use"),
            IoErrorKind::AddrNotAvailable => MeshError::NetworkError("address not available"),
            IoErrorKind::BrokenPipe => MeshError::NetworkError("broken pipe"),
            IoErrorKind::AlreadyExists => MeshError::NetworkError("entity already exists"),
            IoErrorKind::WouldBlock => MeshError::NetworkError("operation would block"),
            IoErrorKind::InvalidInput => MeshError::NetworkError("invalid input parameter"),
            IoErrorKind::InvalidData => MeshError::NetworkError("invalid data"),
            IoErrorKind::TimedOut => MeshError::NetworkError("timed out"),
            IoErrorKind::WriteZero => MeshError::NetworkError("write zero"),
            IoErrorKind::Interrupted => MeshError::NetworkError("operation interrupted"),
            IoErrorKind::Other => MeshError::NetworkError("other os error"),
            IoErrorKind::UnexpectedEof => MeshError::NetworkError("unexpected end of file"),
            IoErrorKind::Unnamed => MeshError::UnknownError,
        }
    }
}

} // verus!
