use rs_archiver::email::{email_from_mail, parse_email, MailPart, ParsedMail};
use rs_archiver::errors::UploadErr;
use rs_archiver::mailbox::{attachment_names, index_uidls, message_action, MessageAction};
use rs_archiver::storage::{AttachmentKey, AttachmentState, AttachmentStatus, Entry, Store};
use rs_archiver::upload::{upload_status, UploadRes};

const MESSAGE: &str = "From: Alice <alice@example.com>\r\n\
To: bob@example.com\r\n\
Subject: Quarterly report\r\n\
MIME-Version: 1.0\r\n\
Content-Type: multipart/mixed; boundary=\"XYZ\"\r\n\
\r\n\
--XYZ\r\n\
Content-Type: text/plain\r\n\
\r\n\
Hello\r\n\
--XYZ\r\n\
Content-Type: application/octet-stream; name=\"a.bin\"\r\n\
Content-Disposition: attachment; filename=\"a.bin\"\r\n\
Content-Transfer-Encoding: base64\r\n\
\r\n\
TWFu\r\n\
--XYZ\r\n\
Content-Type: text/plain\r\n\
Content-Disposition: attachment; filename=\"note.txt\"\r\n\
\r\n\
hi\r\n\
--XYZ--\r\n";

#[test]
fn parses_sender_subject_and_attachments() {
    let email = parse_email(MESSAGE.as_bytes()).unwrap();
    assert_eq!(email.email, "alice@example.com");
    assert_eq!(email.title, "Quarterly report");
    assert_eq!(email.attachments.len(), 2);
    assert_eq!(email.attachments[0].filename, "a.bin");
    assert_eq!(email.attachments[0].contents, "TWFu");
    assert_eq!(email.attachments[1].filename, "note.txt");
    assert_eq!(email.attachments[1].contents, "aGk=");
    let names = attachment_names(&email);
    assert_eq!(names, vec!["a.bin".to_string(), "note.txt".to_string()]);
}

#[test]
fn message_without_sender_is_refused() {
    let raw = "To: bob@example.com\r\nSubject: hi\r\n\r\nbody\r\n";
    assert_eq!(parse_email(raw.as_bytes()).unwrap_err(), "sender email not found");
}

#[test]
fn message_without_subject_is_refused() {
    let raw = "From: alice@example.com\r\nTo: bob@example.com\r\n\r\nbody\r\n";
    assert_eq!(parse_email(raw.as_bytes()).unwrap_err(), "email subject not found");
}

#[test]
fn empty_input_does_not_parse() {
    assert_eq!(parse_email(b"").unwrap_err(), "failed to parse email");
}

#[test]
fn builds_email_from_parsed_parts() {
    let mail = ParsedMail {
        sender: Some("s@x.org".to_string()),
        subject: Some("t".to_string()),
        parts: vec![
            MailPart { name: None, contents: vec![1, 2, 3] },
            MailPart { name: Some("one".to_string()), contents: vec![0x4d] },
            MailPart { name: Some("two".to_string()), contents: vec![0x4d, 0x61] },
            MailPart { name: Some("empty".to_string()), contents: vec![] },
            MailPart { name: Some("bits".to_string()), contents: vec![0xfb, 0xff, 0xbf, 0x00] },
        ],
    };
    let email = email_from_mail(&mail).unwrap();
    let got: Vec<(String, String)> = email
        .attachments
        .iter()
        .map(|a| (a.filename.clone(), a.contents.clone()))
        .collect();
    assert_eq!(
        got,
        vec![
            ("one".to_string(), "TQ==".to_string()),
            ("two".to_string(), "TWE=".to_string()),
            ("empty".to_string(), "".to_string()),
            ("bits".to_string(), "+/+/AA==".to_string()),
        ]
    );
    let no_sender = ParsedMail { sender: None, subject: Some("t".to_string()), parts: vec![] };
    assert_eq!(email_from_mail(&no_sender).unwrap_err(), "sender email not found");
    let no_subject = ParsedMail { sender: Some("s".to_string()), subject: None, parts: vec![] };
    assert_eq!(email_from_mail(&no_subject).unwrap_err(), "email subject not found");
}

#[test]
fn reply_decides_status() {
    let r = |ok: bool, m: &str| UploadRes::new(ok, m.to_string());
    assert_eq!(upload_status(None), AttachmentStatus::FailedRetryable);
    assert_eq!(upload_status(Some(&r(true, "ok"))), AttachmentStatus::Uploaded);
    assert_eq!(upload_status(Some(&r(false, "boom"))), AttachmentStatus::FailedRetryable);
    assert_eq!(upload_status(Some(&r(true, "Empty attachment"))), AttachmentStatus::SkippedTooSmall);
    assert_eq!(
        upload_status(Some(&r(false, "Ignoring small attachments"))),
        AttachmentStatus::SkippedTooSmall
    );
    assert_eq!(upload_status(Some(&r(false, "empty attachment"))), AttachmentStatus::FailedRetryable);
    let reply = r(true, "stored");
    assert!(reply.success());
    assert_eq!(reply.message(), "stored");
}

#[test]
fn upload_errors() {
    assert_eq!(UploadErr::classify(true, true), UploadErr::TimeoutErr);
    assert_eq!(UploadErr::classify(true, false), UploadErr::TimeoutErr);
    assert_eq!(UploadErr::classify(false, true), UploadErr::RequestErr);
    assert_eq!(UploadErr::classify(false, false), UploadErr::NetworkErr);
    let io = std::io::Error::new(std::io::ErrorKind::Other, "disk");
    assert_eq!(UploadErr::from(io), UploadErr::IOErr);
}

#[test]
fn indexes_unique_ids_later_wins() {
    let items = vec![(1usize, "u1".to_string()), (2, "u2".to_string()), (1, "u1b".to_string())];
    let index = index_uidls(&items);
    assert_eq!(index.len(), 2);
    assert_eq!(index.get(&1).map(|s| s.as_str()), Some("u1b"));
    assert_eq!(index.get(&2).map(|s| s.as_str()), Some("u2"));
    assert!(index.get(&3).is_none());
}

#[test]
fn decides_what_becomes_of_a_message() {
    let entry = |name: &str, status| Entry {
        key: AttachmentKey::new("M", name),
        state: AttachmentState { status, attempts: 1 },
    };
    let store = Store::from_entries(
        vec![entry("a", AttachmentStatus::Uploaded), entry("b", AttachmentStatus::FailedRetryable)],
        "s".to_string(),
        3,
    );
    assert_eq!(message_action(&store, "M", &[]), MessageAction::NoAttachments);
    assert_eq!(message_action(&store, "M", &["a".to_string()]), MessageAction::Delete);
    assert_eq!(
        message_action(&store, "M", &["a".to_string(), "b".to_string()]),
        MessageAction::Keep
    );
    assert_eq!(message_action(&store, "Q", &["a".to_string()]), MessageAction::Keep);
}

#[test]
fn client_build_error_is_a_network_error() {
    let e = reqwest::Client::new().get("not a url").build().unwrap_err();
    assert!(!e.is_timeout() && !e.is_request());
    assert_eq!(UploadErr::from_reqwest(&e), UploadErr::NetworkErr);
    assert_eq!(UploadErr::from(e), UploadErr::NetworkErr);
}

#[test]
fn keys_compare_by_message_and_name() {
    assert!(AttachmentKey::new("M", "a") == AttachmentKey::new("M", "a"));
    assert!(AttachmentKey::new("M", "a") != AttachmentKey::new("M", "b"));
    assert!(AttachmentKey::new("M", "a") != AttachmentKey::new("N", "a"));
    assert!(AttachmentKey::new("M", "a") == AttachmentKey::new("M", "a").clone());
}
