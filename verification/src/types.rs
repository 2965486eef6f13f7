//! Plain data carried between the registry protocol and the rest of the
//! tool: responses, download descriptions, and error envelopes.

use vstd::prelude::*;

use crate::value::Value;

verus! {

/// What the registry answers to an upload.
#[derive(Debug, Clone, PartialEq)]
pub struct UploadResponse {
    pub success: bool,
    pub message: String,
    pub id: String,
    pub version: String,
    pub checksum: String,
}

/// What the registry answers when a plugin is published.
#[derive(Debug, Clone, PartialEq)]
pub struct PluginResponse {
    pub name: String,
    pub slug: String,
}

/// What to fetch, and the checksum it must match, if one is known.
#[derive(Debug, Clone, PartialEq)]
pub struct DownloadMeta {
    pub id: String,
    pub version: String,
    pub checksum: Option<String>,
}

/// A data-bearing registry answer.
#[derive(Debug)]
pub struct JsonResponse<T> {
    pub data: T,
    pub meta: Option<JsonResponseMeta>,
}

/// The envelope of a data-bearing answer.
#[derive(Debug, Clone, PartialEq)]
pub struct JsonResponseMeta {
    pub request_id: Option<String>,
}

/// An error-bearing registry answer.
#[derive(Debug)]
pub struct ErrorResponse {
    pub error: ApiError,
    pub meta: Option<ApiErrorMeta>,
}

/// The registry's description of a failure; `details` holds whatever
/// structured document the registry attached.
#[derive(Debug)]
pub struct ApiError {
    pub message: String,
    pub code: String,
    pub sub_code: Option<String>,
    pub details: Option<Value>,
}

/// The envelope of an error-bearing answer.
#[derive(Debug, Clone, PartialEq)]
pub struct ApiErrorMeta {
    pub request_id: String,
}

} // verus!
