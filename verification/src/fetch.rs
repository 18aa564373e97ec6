//! Single-fetch support: the error taxonomy, the remote URL of a handout,
//! and the mapping from an HTTP status to a result.
//!
//! The network calls themselves are I/O and live outside the library;
//! callers hand the resulting status code to [`classify_status`] for a
//! content request and to [`classify_listing_status`] for the tree
//! listing. The two differ on 404: a missing document is [`FetchError::NotFound`],
//! while any non-success listing status — 404 included — is
//! [`FetchError::ApiError`].
use vstd::prelude::*;
use vstd::string::StringExecFns;

verus! {

/// Why an operation against the remote host or the local disk failed.
#[derive(Clone, Copy, Debug, PartialEq, Eq, Structural)]
pub enum FetchError {
    /// The remote item does not exist (a 404-equivalent status).
    NotFound,
    /// The transport failed: the host could not be reached at all.
    NetworkError,
    /// The remote service answered with a non-success status.
    ApiError,
    /// A response body or a stored manifest could not be decoded.
    ParseError,
    /// The local file could not be created or written.
    IoError,
}

/// The fetch result that an HTTP status code of a content request stands
/// for: success for 2xx, `NotFound` for 404, `ApiError` otherwise.
pub open spec fn spec_classify_status(status: u16) -> Result<(), FetchError> {
    if 200 <= status <= 299 {
        Ok(())
    } else if status == 404 {
        Err(FetchError::NotFound)
    } else {
        Err(FetchError::ApiError)
    }
}

/// Maps an HTTP status code of a content request to a result: any 2xx is
/// success, 404 means the document itself is absent and is `NotFound`,
/// any other status is `ApiError`.
pub fn classify_status(status: u16) -> (r: Result<(), FetchError>)
    ensures
        r == spec_classify_status(status),
{
    if 200 <= status && status <= 299 {
        Ok(())
    } else if status == 404 {
        Err(FetchError::NotFound)
    } else {
        Err(FetchError::ApiError)
    }
}

/// The result an HTTP status code of the listing request stands for:
/// success for 2xx, `ApiError` for every other status — a 404 here is a
/// failing service resource, not a missing document.
pub open spec fn spec_classify_listing_status(status: u16) -> Result<(), FetchError> {
    if 200 <= status <= 299 {
        Ok(())
    } else {
        Err(FetchError::ApiError)
    }
}

/// Maps an HTTP status code of the listing request to a result: any 2xx
/// is success, any other status — 404 included — is `ApiError`.
pub fn classify_listing_status(status: u16) -> (r: Result<(), FetchError>)
    ensures
        r == spec_classify_listing_status(status),
        200 <= status <= 299 <==> r is Ok,
        !(200 <= status <= 299) ==> r == Err::<(), FetchError>(FetchError::ApiError),
{
    if 200 <= status && status <= 299 {
        Ok(())
    } else {
        Err(FetchError::ApiError)
    }
}

/// The remote address a handout identifier is fetched from.
pub fn handout_url(handout: &str) -> (r: String)
    ensures
        r@ == "https://knzhou.github.io/handouts/"@ + handout@ + ".pdf"@,
{
    let mut s = String::from_str("https://knzhou.github.io/handouts/");
    s.append(handout);
    s.append(".pdf");
    s
}

} // verus!
