# rs_archiver

Fetches messages from a POP3 mailbox, uploads their named attachments to an
archiving service, records each outcome in a JSON store, and removes a
message once none of its attachments needs more work.

- `src/` is the verified library: the attachment store (`storage`), the
  reading of messages (`email`), the uploader's request and reply
  (`upload`), upload errors (`errors`) and the per-message decisions
  (`mailbox`).
- `app/` is the program around it: configuration, the POP3 session, HTTP
  calls and the JSON file on disk.
- `tests/` exercises the library on concrete values.
