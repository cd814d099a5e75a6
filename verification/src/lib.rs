//! Archiving of e-mail attachments: the store of upload outcomes, the
//! reading of messages, and the decisions about what to upload and which
//! messages to remove.
pub mod email;
pub mod errors;
pub mod mailbox;
pub mod storage;
pub mod upload;
