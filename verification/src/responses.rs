//! Plain response payloads handed to the surrounding request-handling
//! code, and the structured error payload every failure translates into.

use vstd::prelude::*;

verus! {

/// The greeting payload: node and cluster identity.
#[derive(Debug)]
pub struct InfoResponse {
    pub name: String,
    pub cluster_name: String,
    pub version: VersionInfo,
    pub tagline: String,
}

/// The version block of the greeting payload.
#[derive(Debug)]
pub struct VersionInfo {
    pub number: String,
    pub build_flavor: String,
}

/// The acknowledgement of a single document write.
#[derive(Debug)]
pub struct IndexResponse {
    pub _index: String,
    pub _id: String,
    pub result: String,
    pub _version: u32,
    pub _shards: ShardsInfo,
}

/// The shard bookkeeping block: this store is a single shard that always
/// succeeds.
#[derive(Debug, Clone, Copy, PartialEq, Eq, Structural)]
pub struct ShardsInfo {
    pub total: u32,
    pub successful: u32,
    pub failed: u32,
    pub skipped: Option<u32>,
}

impl Default for ShardsInfo {
    /// One shard, one success, nothing failed or skipped.
    fn default() -> (r: Self)
        ensures
            r.total == 1,
            r.successful == 1,
            r.failed == 0,
            r.skipped == Some(0u32),
    {
        ShardsInfo { total: 1, successful: 1, failed: 0, skipped: Some(0) }
    }
}

/// The total-hit count of a search response.
#[derive(Debug)]
pub struct TotalHits {
    pub value: usize,
    pub relation: String,
}

/// A structured failure payload: the failure described twice, as the root
/// cause list and at top level, with the suggested response status.
#[derive(Debug)]
pub struct ErrorResponse {
    pub error: ErrorDetails,
    pub status: u16,
}

/// The body of a structured failure payload.
#[derive(Debug)]
pub struct ErrorDetails {
    pub root_cause: Vec<ErrorCause>,
    pub kind: String,
    pub reason: String,
    pub index_uuid: Option<String>,
    pub index: Option<String>,
}

/// One cause inside a structured failure payload.
#[derive(Debug)]
pub struct ErrorCause {
    pub kind: String,
    pub reason: String,
    pub index_uuid: Option<String>,
    pub index: Option<String>,
}

/// The acknowledgement of a refresh: only the shard block.
#[derive(Debug)]
pub struct RefreshResponse {
    pub _shards: ShardsInfo,
}

/// The payload of a count request.
#[derive(Debug)]
pub struct CountResponse {
    pub count: usize,
    pub _shards: ShardsInfo,
}

/// Builds the structured failure payload: one root cause carrying the kind
/// and reason, the same kind and reason at top level, and the given status.
pub fn create_error_response(status: u16, error_type: &str, reason: &str) -> (r: ErrorResponse)
    ensures
        r.status == status,
        r.error.kind@ == error_type@,
        r.error.reason@ == reason@,
        r.error.index_uuid is None,
        r.error.index is None,
        r.error.root_cause@.len() == 1,
        r.error.root_cause@[0].kind@ == error_type@,
        r.error.root_cause@[0].reason@ == reason@,
        r.error.root_cause@[0].index_uuid is None,
        r.error.root_cause@[0].index is None,
{
    let cause = ErrorCause {
        kind: String::from_str(error_type),
        reason: String::from_str(reason),
        index_uuid: None,
        index: None,
    };
    let mut root_cause: Vec<ErrorCause> = Vec::new();
    root_cause.push(cause);
    ErrorResponse {
        error: ErrorDetails {
            root_cause,
            kind: String::from_str(error_type),
            reason: String::from_str(reason),
            index_uuid: None,
            index: None,
        },
        status,
    }
}

} // verus!
