//! What is sent to the uploader for each attachment, and how its reply
//! decides the attachment's status.
use crate::storage::AttachmentStatus;
use vstd::prelude::*;

verus! {

/// The request sent to the uploader for one attachment.
#[derive(Debug)]
pub struct UploadReq {
    pub username: String,
    pub password: String,
    pub email: String,
    pub title: String,
    pub filename: String,
    pub contents: String,
    pub domain: String,
}

/// The uploader's reply: whether it stored the attachment, and its message.
#[derive(Debug)]
pub struct UploadRes {
    success: bool,
    message: String,
}

impl View for UploadRes {
    type V = (bool, Seq<char>);

    closed spec fn view(&self) -> (bool, Seq<char>) {
        (self.success, self.message@)
    }
}

impl UploadRes {
    /// A reply with the given success flag and message.
    pub fn new(success: bool, message: String) -> (res: UploadRes)
        ensures
            res@ == (success, message@),
    {
        UploadRes { success, message }
    }

    /// Whether the uploader stored the attachment.
    pub fn success(&self) -> (ok: bool)
        ensures
            ok == self@.0,
    {
        self.success
    }

    /// The uploader's message.
    pub fn message(&self) -> (m: &String)
        ensures
            m@ == self@.1,
    {
        &self.message
    }
}

/// The status that a reply gives: an empty or too small attachment is
/// skipped, whatever the success flag; otherwise success means uploaded,
/// and anything else is a failure worth retrying.
pub open spec fn reply_status(success: bool, message: Seq<char>) -> AttachmentStatus {
    if message == "Empty attachment"@ || message == "Ignoring small attachments"@ {
        AttachmentStatus::SkippedTooSmall
    } else if success {
        AttachmentStatus::Uploaded
    } else {
        AttachmentStatus::FailedRetryable
    }
}

/// The status that an upload ends in: `None` stands for a request that got
/// no readable reply, which is a failure worth retrying.
pub open spec fn upload_status_spec(reply: Option<(bool, Seq<char>)>) -> AttachmentStatus {
    match reply {
        None => AttachmentStatus::FailedRetryable,
        Some(r) => reply_status(r.0, r.1),
    }
}

/// The status of an attachment after an upload that got `reply` back, or
/// no readable reply (`None`: the request or the decoding of the reply
/// failed).
pub fn upload_status(reply: Option<&UploadRes>) -> (status: AttachmentStatus)
    ensures
        status == upload_status_spec(
            match reply {
                Some(r) => Some(r@),
                None => None,
            },
        ),
{
    match reply {
        None => AttachmentStatus::FailedRetryable,
        Some(r) => {
            let empty = "Empty attachment".to_owned();
            let small = "Ignoring small attachments".to_owned();
            if r.message == empty || r.message == small {
                AttachmentStatus::SkippedTooSmall
            } else if r.success {
                AttachmentStatus::Uploaded
            } else {
                AttachmentStatus::FailedRetryable
            }
        },
    }
}

/// A reply whose message says the attachment is empty or too small means
/// the attachment was skipped, whatever the success flag; any other reply
/// means uploaded when it reports success and a retryable failure when not;
/// no readable reply is a retryable failure.
pub proof fn lemma_upload_status_exact(success: bool, message: Seq<char>)
    ensures
        message == "Empty attachment"@ || message == "Ignoring small attachments"@
            ==> upload_status_spec(Some((success, message))) == AttachmentStatus::SkippedTooSmall,
        message != "Empty attachment"@ && message != "Ignoring small attachments"@ && success
            ==> upload_status_spec(Some((success, message))) == AttachmentStatus::Uploaded,
        message != "Empty attachment"@ && message != "Ignoring small attachments"@ && !success
            ==> upload_status_spec(Some((success, message))) == AttachmentStatus::FailedRetryable,
        upload_status_spec(None) == AttachmentStatus::FailedRetryable,
{
}

} // verus!
