//! The ways an upload can fail, and how outside errors map onto them.
use vstd::prelude::*;

verus! {

/// Why an upload did not go through.
#[derive(Debug, Clone, Copy, PartialEq, Eq, Structural)]
pub enum UploadErr {
    RequestErr,
    TimeoutErr,
    NetworkErr,
    IOErr,
}

/// The HTTP client's error type, carried through opaquely.
#[verifier::external_type_specification]
#[verifier::external_body]
pub struct ExReqwestError(reqwest::Error);

/// The standard I/O error type, carried through opaquely.
#[verifier::external_type_specification]
#[verifier::external_body]
pub struct ExIoError(std::io::Error);

/// Whether an HTTP client error is, or was caused by, a timeout.
pub uninterp spec fn reqwest_timeout(e: reqwest::Error) -> bool;

/// Whether an HTTP client error arose while building or sending the request.
pub uninterp spec fn reqwest_request(e: reqwest::Error) -> bool;

/// `reqwest::Error::is_timeout`: walks the error's own chain of causes and
/// answers whether one of them is a timeout. The contract claims that the
/// answer is a function of the error alone, named `reqwest_timeout`; which
/// errors count as timeouts stays unsaid.
#[verifier::external_body]
fn reqwest_is_timeout(e: &reqwest::Error) -> (b: bool)
    ensures
        b == reqwest_timeout(*e),
{
    e.is_timeout()
}

/// `reqwest::Error::is_request`: reads the error's kind and answers whether
/// it is a request error. The contract claims that the answer is a function
/// of the error alone, named `reqwest_request`; which errors are request
/// errors stays unsaid.
#[verifier::external_body]
fn reqwest_is_request(e: &reqwest::Error) -> (b: bool)
    ensures
        b == reqwest_request(*e),
{
    e.is_request()
}

/// The upload error for an HTTP client error with the given traits: a
/// timeout wins over a failed request; anything else is a network error.
pub open spec fn classify_spec(timeout: bool, request: bool) -> UploadErr {
    if timeout {
        UploadErr::TimeoutErr
    } else if request {
        UploadErr::RequestErr
    } else {
        UploadErr::NetworkErr
    }
}

impl UploadErr {
    /// The upload error for an HTTP client error that is (or is not) a
    /// timeout and (or) a failed request.
    pub fn classify(timeout: bool, request: bool) -> (e: UploadErr)
        ensures
            e == classify_spec(timeout, request),
    {
        if timeout {
            UploadErr::TimeoutErr
        } else if request {
            UploadErr::RequestErr
        } else {
            UploadErr::NetworkErr
        }
    }

    /// The upload error for an error of the HTTP client: a timeout if it is
    /// one, else a request error if it arose with the request, else a
    /// network error.
    pub fn from_reqwest(e: &reqwest::Error) -> (r: UploadErr)
        ensures
            r == classify_spec(reqwest_timeout(*e), reqwest_request(*e)),
    {
        let timeout = reqwest_is_timeout(e);
        let request = reqwest_is_request(e);
        UploadErr::classify(timeout, request)
    }
}

impl From<reqwest::Error> for UploadErr {
    /// The upload error for an error of the HTTP client, as `from_reqwest`.
    fn from(e: reqwest::Error) -> (r: UploadErr) {
        UploadErr::from_reqwest(&e)
    }
}

impl vstd::std_specs::convert::FromSpecImpl<reqwest::Error> for UploadErr {
    open spec fn obeys_from_spec() -> bool {
        true
    }

    open spec fn from_spec(e: reqwest::Error) -> UploadErr {
        classify_spec(reqwest_timeout(e), reqwest_request(e))
    }
}

impl From<std::io::Error> for UploadErr {
    /// Any I/O error is an I/O failure of the upload.
    fn from(_e: std::io::Error) -> (r: UploadErr) {
        UploadErr::IOErr
    }
}

impl vstd::std_specs::convert::FromSpecImpl<std::io::Error> for UploadErr {
    open spec fn obeys_from_spec() -> bool {
        true
    }

    open spec fn from_spec(e: std::io::Error) -> UploadErr {
        UploadErr::IOErr
    }
}

/// A timeout is reported as such whatever else holds; otherwise a failed
/// request is a request error; anything else is a network error. No HTTP
/// client error is an I/O error.
pub proof fn lemma_classify(timeout: bool, request: bool)
    ensures
        timeout ==> classify_spec(timeout, request) == UploadErr::TimeoutErr,
        !timeout && request ==> classify_spec(timeout, request) == UploadErr::RequestErr,
        !timeout && !request ==> classify_spec(timeout, request) == UploadErr::NetworkErr,
        classify_spec(timeout, request) != UploadErr::IOErr,
{
}

} // verus!
