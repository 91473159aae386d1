//! Types shared by the agent and the manager: the standard API response and
//! the error type.

use vstd::prelude::*;
use vstd::std_specs::convert::FromSpecImpl;

verus! {

#[verifier::external_type_specification]
#[verifier::external_body]
pub struct ExJsonError(serde_json::Error);

/// A point in time in UTC: whole seconds since the Unix epoch and the
/// nanoseconds past that second.
#[derive(Debug, Clone, Copy, PartialEq, Eq)]
pub struct UtcTime {
    pub secs: i64,
    pub nanos: u32,
}

/// The envelope of every API answer: whether the request succeeded, its data
/// or error message, and when the answer was made.
pub struct ApiResponse<T> {
    pub success: bool,
    pub data: Option<T>,
    pub error: Option<String>,
    pub timestamp: UtcTime,
}

impl<T> ApiResponse<T> {
    /// A successful answer carrying `data`, stamped with `timestamp` (the
    /// time the answer is made, read by the caller).
    pub fn success(data: T, timestamp: UtcTime) -> (r: Self)
        ensures
            r.success,
            r.data == Some(data),
            r.error is None,
            r.timestamp == timestamp,
    {
        ApiResponse { success: true, data: Some(data), error: None, timestamp }
    }

    /// A failed answer carrying the message `msg`, stamped with `timestamp`.
    pub fn error(msg: impl Into<String>, timestamp: UtcTime) -> (r: Self)
        ensures
            !r.success,
            r.data is None,
            r.error is Some,
            call_ensures(<_ as Into<String>>::into, (msg,), r.error->0),
            r.timestamp == timestamp,
    {
        ApiResponse { success: false, data: None, error: Some(msg.into()), timestamp }
    }
}

/// The newest report of every machine, with the time the answer was made.
pub struct AggregatedMetrics<M> {
    pub machines: Vec<M>,
    pub last_updated: UtcTime,
}

/// `From<T> for T`, std's reflexive conversion: it gives its argument back.
pub assume_specification<Q>[ <Q as core::convert::From<Q>>::from ](q: Q) -> (r: Q)
    ensures
        r == q,
;

/// The errors of the monitor.
pub enum ResourceMonitorError {
    NetworkError(String),
    SerializationError(serde_json::Error),
    SystemError(String),
    ConfigError(String),
}

impl From<serde_json::Error> for ResourceMonitorError {
    fn from(e: serde_json::Error) -> (r: Self) {
        ResourceMonitorError::SerializationError(e)
    }
}

impl FromSpecImpl<serde_json::Error> for ResourceMonitorError {
    open spec fn obeys_from_spec() -> bool {
        true
    }

    open spec fn from_spec(v: serde_json::Error) -> Self {
        ResourceMonitorError::SerializationError(v)
    }
}

/// The result type of the monitor.
pub type Result<T> = std::result::Result<T, ResourceMonitorError>;

} // verus!
