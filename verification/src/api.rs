//! Wire messages of the lock protocol and the status codes a session can
//! end with.
//!
//! One session is one bidirectional stream.  The client sends `Acquire` and
//! then, when it gives the shard back, `Released`; the server answers
//! `Acquired` and, when the shard is being stolen, `Release`.

use vstd::prelude::*;
use crate::data::ShardData;

verus! {

/// Status code a session ends with when it fails.
#[derive(Clone, Copy, Debug, PartialEq, Eq, Structural)]
pub enum Code {
    /// The stream ended before an `Acquire` arrived.
    InvalidArgument,
    /// An `Acquire` named a shard that does not exist.
    NotFound,
    /// A frame had the wrong shape for its position in the session.
    FailedPrecondition,
    /// The session ended while the server was still owed a `Released`.
    DataLoss,
}

/// A failure status: a code plus a human-readable message.
pub struct Status {
    pub code: Code,
    pub message: String,
}

impl Status {
    pub fn new(code: Code, message: &str) -> (r: Status)
        ensures
            r.code == code,
            r.message@ == message@,
    {
        Status { code, message: message.to_owned() }
    }
}

/// Body of a client-to-server frame.
pub enum LockRequestBody {
    /// First frame: ask for ownership of the named shard.
    Acquire(String),
    /// Final frame: give the shard's data back.
    Released(ShardData),
}

/// A client-to-server frame.
pub struct LockRequest {
    pub body: Option<LockRequestBody>,
}

/// Body of a server-to-client frame.
pub enum LockResponseBody {
    /// Answer to `Acquire`: ownership granted, with the shard's data.
    Acquired(ShardData),
    /// The named shard is being stolen; the client must answer `Released`.
    Release(String),
}

/// A server-to-client frame.
pub struct LockResponse {
    pub body: Option<LockResponseBody>,
}

/// Error the client reports when a server frame or the stream end does not
/// fit the protocol.
#[derive(Clone, Copy, Debug, PartialEq, Eq, Structural)]
pub enum ClientError {
    /// A frame other than `Acquired` arrived where `Acquired` was expected.
    ExpectedAcquired,
    /// A frame other than `Release` arrived where `Release` was expected.
    ExpectedRelease,
    /// The stream ended while the cached shard had not been released.
    LockNotReleased,
    /// A frame arrived after the session should have ended.
    ConnectionClosed,
}

impl LockRequest {
    /// The shard id of an `Acquire` frame; any other frame is a
    /// `FailedPrecondition`.
    pub fn expect_acquire(self) -> (r: Result<String, Status>)
        ensures
            match r {
                Ok(id) => self.body matches Some(LockRequestBody::Acquire(x)) && x == id,
                Err(s) => !(self.body matches Some(LockRequestBody::Acquire(_)))
                    && s.code == Code::FailedPrecondition,
            },
    {
        match self {
            LockRequest { body: Some(LockRequestBody::Acquire(id)) } => Ok(id),
            _ => Err(Status::new(Code::FailedPrecondition, "expected request to be `acquire`")),
        }
    }

    /// The shard data of a `Released` frame; any other frame is a
    /// `FailedPrecondition`.
    pub fn expect_released(self) -> (r: Result<ShardData, Status>)
        ensures
            match r {
                Ok(data) => self.body matches Some(LockRequestBody::Released(d)) && d == data,
                Err(s) => !(self.body matches Some(LockRequestBody::Released(_)))
                    && s.code == Code::FailedPrecondition,
            },
    {
        match self {
            LockRequest { body: Some(LockRequestBody::Released(data)) } => Ok(data),
            _ => Err(Status::new(Code::FailedPrecondition, "expected request to be `released`")),
        }
    }
}

impl LockResponse {
    /// The shard data of an `Acquired` frame; any other frame is a protocol
    /// error on the client.
    pub fn expect_acquired(self) -> (r: Result<ShardData, ClientError>)
        ensures
            match r {
                Ok(data) => self.body matches Some(LockResponseBody::Acquired(d)) && d == data,
                Err(e) => !(self.body matches Some(LockResponseBody::Acquired(_)))
                    && e == ClientError::ExpectedAcquired,
            },
    {
        match self {
            LockResponse { body: Some(LockResponseBody::Acquired(data)) } => Ok(data),
            _ => Err(ClientError::ExpectedAcquired),
        }
    }

    /// The shard id of a `Release` frame; any other frame is a protocol
    /// error on the client.
    pub fn expect_release(self) -> (r: Result<String, ClientError>)
        ensures
            match r {
                Ok(id) => self.body matches Some(LockResponseBody::Release(x)) && x == id,
                Err(e) => !(self.body matches Some(LockResponseBody::Release(_)))
                    && e == ClientError::ExpectedRelease,
            },
    {
        match self {
            LockResponse { body: Some(LockResponseBody::Release(id)) } => Ok(id),
            _ => Err(ClientError::ExpectedRelease),
        }
    }
}

} // verus!
