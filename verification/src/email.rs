//! Reading a message: its sender, its subject, and its named attachments,
//! whose contents are carried as standard base64 text.
use base64::Engine as _;
use mail_parser::MimeHeaders as _;
use vstd::prelude::*;

verus! {

/// A named attachment, its contents in standard base64.
#[derive(Debug)]
pub struct Attachement {
    pub filename: String,
    pub contents: String,
}

/// The parts of a message that the archive uses.
#[derive(Debug)]
pub struct Email {
    pub email: String,
    pub title: String,
    pub attachments: Vec<Attachement>,
}

/// An attachment as text: its file name and its base64 contents.
pub struct AttachementView {
    pub filename: Seq<char>,
    pub contents: Seq<char>,
}

/// A message as text.
pub struct EmailView {
    pub email: Seq<char>,
    pub title: Seq<char>,
    pub attachments: Seq<AttachementView>,
}

impl View for Attachement {
    type V = AttachementView;

    open spec fn view(&self) -> AttachementView {
        AttachementView { filename: self.filename@, contents: self.contents@ }
    }
}

impl View for Email {
    type V = EmailView;

    open spec fn view(&self) -> EmailView {
        EmailView {
            email: self.email@,
            title: self.title@,
            attachments: self.attachments@.map_values(|a: Attachement| a@),
        }
    }
}

/// An attachment part of a parsed message: the name it is given, if any,
/// and its decoded contents.
#[derive(Debug)]
pub struct MailPart {
    pub name: Option<String>,
    pub contents: Vec<u8>,
}

/// What the mail parser yields of a message: the address of the first
/// sender, the subject, and the attachment parts in order.
#[derive(Debug)]
pub struct ParsedMail {
    pub sender: Option<String>,
    pub subject: Option<String>,
    pub parts: Vec<MailPart>,
}

pub struct MailPartView {
    pub name: Option<Seq<char>>,
    pub contents: Seq<u8>,
}

pub struct ParsedMailView {
    pub sender: Option<Seq<char>>,
    pub subject: Option<Seq<char>>,
    pub parts: Seq<MailPartView>,
}

/// The text of an optional string.
pub open spec fn opt_text(s: Option<String>) -> Option<Seq<char>> {
    match s {
        Some(t) => Some(t@),
        None => None,
    }
}

impl View for MailPart {
    type V = MailPartView;

    open spec fn view(&self) -> MailPartView {
        MailPartView { name: opt_text(self.name), contents: self.contents@ }
    }
}

impl View for ParsedMail {
    type V = ParsedMailView;

    open spec fn view(&self) -> ParsedMailView {
        ParsedMailView {
            sender: opt_text(self.sender),
            subject: opt_text(self.subject),
            parts: self.parts@.map_values(|p: MailPart| p@),
        }
    }
}

/// The character of the standard base64 alphabet for a 6-bit value.
pub open spec fn base64_digit(v: int) -> char {
    if v < 26 {
        (65 + v) as char
    } else if v < 52 {
        (97 + (v - 26)) as char
    } else if v < 62 {
        (48 + (v - 52)) as char
    } else if v == 62 {
        '+'
    } else {
        '/'
    }
}

/// Standard base64 with padding (RFC 4648, section 4): each group of three
/// bytes becomes four characters; a last group of one or two bytes is
/// padded with `=`.
pub open spec fn base64_standard(b: Seq<u8>) -> Seq<char>
    decreases b.len(),
{
    let b0 = b[0] as int;
    let b1 = b[1] as int;
    let b2 = b[2] as int;
    if b.len() == 0 {
        Seq::empty()
    } else if b.len() == 1 {
        seq![base64_digit(b0 / 4), base64_digit((b0 % 4) * 16), '=', '=']
    } else if b.len() == 2 {
        seq![
            base64_digit(b0 / 4),
            base64_digit((b0 % 4) * 16 + b1 / 16),
            base64_digit((b1 % 16) * 4),
            '=',
        ]
    } else {
        seq![
            base64_digit(b0 / 4),
            base64_digit((b0 % 4) * 16 + b1 / 16),
            base64_digit((b1 % 16) * 4 + b2 / 64),
            base64_digit(b2 % 64),
        ] + base64_standard(b.subrange(3, b.len() as int))
    }
}

/// A character of base64 text: a letter, a digit, `+`, `/` or the padding `=`.
pub open spec fn is_base64_char(c: char) -> bool {
    ('A' <= c && c <= 'Z') || ('a' <= c && c <= 'z') || ('0' <= c && c <= '9') || c == '+' || c
        == '/' || c == '='
}

/// The 6-bit value of a character of the standard base64 alphabet.
pub open spec fn base64_value(c: char) -> int {
    if 'A' <= c && c <= 'Z' {
        c as int - 65
    } else if 'a' <= c && c <= 'z' {
        c as int - 71
    } else if '0' <= c && c <= '9' {
        c as int + 4
    } else if c == '+' {
        62
    } else {
        63
    }
}

/// Decodes padded standard base64 text, four characters at a time.
pub open spec fn base64_decode(s: Seq<char>) -> Seq<u8>
    decreases s.len(),
{
    if s.len() < 4 {
        Seq::empty()
    } else {
        let v0 = base64_value(s[0]);
        let v1 = base64_value(s[1]);
        let v2 = base64_value(s[2]);
        let v3 = base64_value(s[3]);
        let first = (v0 * 4 + v1 / 16) as u8;
        let second = ((v1 % 16) * 16 + v2 / 4) as u8;
        let third = ((v2 % 4) * 64 + v3) as u8;
        let group = if s[2] == '=' {
            seq![first]
        } else if s[3] == '=' {
            seq![first, second]
        } else {
            seq![first, second, third]
        };
        group + base64_decode(s.subrange(4, s.len() as int))
    }
}

proof fn lemma_base64_digit(v: int)
    requires
        0 <= v < 64,
    ensures
        is_base64_char(base64_digit(v)),
        base64_digit(v) != '=',
        base64_value(base64_digit(v)) == v,
{
}

proof fn lemma_base64_group(b0: int, b1: int, b2: int)
    requires
        0 <= b0 < 256,
        0 <= b1 < 256,
        0 <= b2 < 256,
    ensures
        0 <= b0 / 4 < 64,
        0 <= (b0 % 4) * 16 + b1 / 16 < 64,
        0 <= (b1 % 16) * 4 + b2 / 64 < 64,
        0 <= b2 % 64 < 64,
        (b0 / 4) * 4 + ((b0 % 4) * 16 + b1 / 16) / 16 == b0,
        (((b0 % 4) * 16 + b1 / 16) % 16) * 16 + ((b1 % 16) * 4 + b2 / 64) / 4 == b1,
        (((b1 % 16) * 4 + b2 / 64) % 4) * 64 + b2 % 64 == b2,
        0 <= (b0 % 4) * 16 < 64,
        (b0 / 4) * 4 + ((b0 % 4) * 16) / 16 == b0,
        0 <= (b1 % 16) * 4 < 64,
        (((b0 % 4) * 16 + b1 / 16) % 16) * 16 + ((b1 % 16) * 4) / 4 == b1,
{
    assert((b0 / 4) * 4 + ((b0 % 4) * 16 + b1 / 16) / 16 == b0) by (nonlinear_arith)
        requires
            0 <= b0 < 256,
            0 <= b1 < 256,
    ;
    assert((((b0 % 4) * 16 + b1 / 16) % 16) * 16 + ((b1 % 16) * 4 + b2 / 64) / 4 == b1)
        by (nonlinear_arith)
        requires
            0 <= b0 < 256,
            0 <= b1 < 256,
            0 <= b2 < 256,
    ;
    assert((((b1 % 16) * 4 + b2 / 64) % 4) * 64 + b2 % 64 == b2) by (nonlinear_arith)
        requires
            0 <= b1 < 256,
            0 <= b2 < 256,
    ;
    assert((b0 / 4) * 4 + ((b0 % 4) * 16) / 16 == b0) by (nonlinear_arith)
        requires
            0 <= b0 < 256,
    ;
    assert((((b0 % 4) * 16 + b1 / 16) % 16) * 16 + ((b1 % 16) * 4) / 4 == b1)
        by (nonlinear_arith)
        requires
            0 <= b0 < 256,
            0 <= b1 < 256,
    ;
}

/// Standard base64 text comes in groups of four characters, one group for
/// every three bytes or fewer, and uses only the base64 alphabet and `=`.
pub proof fn lemma_base64_shape(b: Seq<u8>)
    ensures
        base64_standard(b).len() == ((b.len() + 2) / 3) * 4,
        base64_standard(b).len() % 4 == 0,
        forall|i: int|
            0 <= i < base64_standard(b).len() ==> is_base64_char(#[trigger] base64_standard(b)[i]),
    decreases b.len(),
{
    if b.len() > 0 {
        let b0 = b[0] as int;
        let b1 = b[1] as int;
        let b2 = b[2] as int;
        lemma_base64_group(b0, if b.len() > 1 { b1 } else { 0 }, if b.len() > 2 { b2 } else { 0 });
        lemma_base64_digit(b0 / 4);
        if b.len() == 1 {
            lemma_base64_digit((b0 % 4) * 16);
        } else if b.len() == 2 {
            lemma_base64_digit((b0 % 4) * 16 + b1 / 16);
            lemma_base64_digit((b1 % 16) * 4);
        } else {
            lemma_base64_digit((b0 % 4) * 16 + b1 / 16);
            lemma_base64_digit((b1 % 16) * 4 + b2 / 64);
            lemma_base64_digit(b2 % 64);
            let rest = b.subrange(3, b.len() as int);
            lemma_base64_shape(rest);
            let g = seq![
                base64_digit(b0 / 4),
                base64_digit((b0 % 4) * 16 + b1 / 16),
                base64_digit((b1 % 16) * 4 + b2 / 64),
                base64_digit(b2 % 64),
            ];
            let e = base64_standard(b);
            assert(e == g + base64_standard(rest));
            assert forall|i: int| 0 <= i < e.len() implies is_base64_char(#[trigger] e[i]) by {
                if i >= 4 {
                    assert(e[i] == base64_standard(rest)[i - 4]);
                }
            }
        }
    }
}

/// Decoding the standard base64 text of bytes gives the bytes back.
pub proof fn lemma_base64_round_trip(b: Seq<u8>)
    ensures
        base64_decode(base64_standard(b)) == b,
    decreases b.len(),
{
    if b.len() > 0 {
        let b0 = b[0] as int;
        let b1 = b[1] as int;
        let b2 = b[2] as int;
        lemma_base64_group(b0, if b.len() > 1 { b1 } else { 0 }, if b.len() > 2 { b2 } else { 0 });
        lemma_base64_digit(b0 / 4);
        let e = base64_standard(b);
        if b.len() == 1 {
            lemma_base64_digit((b0 % 4) * 16);
            assert(e.subrange(4, 4) =~= Seq::<char>::empty());
            assert(base64_decode(Seq::<char>::empty()) =~= Seq::<u8>::empty());
            assert(base64_decode(e) =~= b);
        } else if b.len() == 2 {
            lemma_base64_digit((b0 % 4) * 16 + b1 / 16);
            lemma_base64_digit((b1 % 16) * 4);
            assert(e.subrange(4, 4) =~= Seq::<char>::empty());
            assert(base64_decode(Seq::<char>::empty()) =~= Seq::<u8>::empty());
            assert(base64_decode(e) =~= b);
        } else {
            lemma_base64_digit((b0 % 4) * 16 + b1 / 16);
            lemma_base64_digit((b1 % 16) * 4 + b2 / 64);
            lemma_base64_digit(b2 % 64);
            let rest = b.subrange(3, b.len() as int);
            lemma_base64_round_trip(rest);
            assert(e.subrange(4, e.len() as int) =~= base64_standard(rest));
            assert(base64_decode(e) =~= b);
        }
    }
}

/// What the mail parser yields of the raw message `data`, or `None` where it
/// does not parse.
pub uninterp spec fn parsed_mail(data: Seq<u8>) -> Option<ParsedMailView>;

/// Parses a message with `mail_parser::MessageParser` and reads off the
/// address of the first sender (`Address::first`, its `address`), the
/// subject, and each attachment part with its `attachment_name` and
/// `contents`. The contract claims only that the result is a function of
/// the bytes, named `parsed_mail`; what that function is stays unsaid.
#[verifier::external_body]
fn read_mail(data: &[u8]) -> (mail: Option<ParsedMail>)
    ensures
        match mail {
            Some(m) => parsed_mail(data@) == Some(m@),
            None => parsed_mail(data@) is None,
        },
{
    let message = mail_parser::MessageParser::default().parse(data)?;
    let sender = message.from().and_then(mail_parser::Address::first).and_then(
        |addr| addr.address.as_deref(),
    ).map(str::to_string);
    let subject = message.subject().map(str::to_string);
    let parts = message.attachments().map(
        |a| MailPart { name: a.attachment_name().map(str::to_string), contents: a.contents().to_vec() },
    ).collect();
    Some(ParsedMail { sender, subject, parts })
}

/// Encodes bytes with `base64::engine::general_purpose::STANDARD`, which
/// uses the standard alphabet and pads with `=`; the contract states that
/// encoding exactly.
#[verifier::external_body]
fn base64_encode(data: &[u8]) -> (text: String)
    ensures
        text@ == base64_standard(data@),
{
    base64::engine::general_purpose::STANDARD.encode(data)
}

/// The named attachments of the parts, in order, with their contents in
/// base64; parts without a name are left out.
pub open spec fn named_attachments(parts: Seq<MailPartView>) -> Seq<AttachementView>
    decreases parts.len(),
{
    if parts.len() == 0 {
        Seq::empty()
    } else {
        let rest = named_attachments(parts.drop_last());
        match parts.last().name {
            Some(n) => rest.push(
                AttachementView { filename: n, contents: base64_standard(parts.last().contents) },
            ),
            None => rest,
        }
    }
}

/// Text that is the standard base64 of some bytes: groups of four
/// characters from the base64 alphabet and `=`, which decode to bytes that
/// encode back to the same text.
pub open spec fn is_base64_text(t: Seq<char>) -> bool {
    &&& t.len() % 4 == 0
    &&& forall|k: int| 0 <= k < t.len() ==> is_base64_char(#[trigger] t[k])
    &&& base64_standard(base64_decode(t)) == t
}

/// The standard base64 text of any bytes is base64 text, and decodes to them.
pub proof fn lemma_base64_text(b: Seq<u8>)
    ensures
        is_base64_text(base64_standard(b)),
        base64_decode(base64_standard(b)) == b,
{
    lemma_base64_shape(b);
    lemma_base64_round_trip(b);
}

/// Every attachment taken from the parts is named like a named part and
/// carries base64 text that decodes to that part's bytes.
pub proof fn lemma_named_attachments_base64(parts: Seq<MailPartView>)
    ensures
        forall|i: int|
            0 <= i < named_attachments(parts).len() ==> {
                &&& is_base64_text(#[trigger] named_attachments(parts)[i].contents)
                &&& exists|j: int|
                    0 <= j < parts.len() && parts[j].name == Some(
                        named_attachments(parts)[i].filename,
                    ) && base64_decode(named_attachments(parts)[i].contents) == parts[j].contents
            },
    decreases parts.len(),
{
    if parts.len() > 0 {
        let init = parts.drop_last();
        lemma_named_attachments_base64(init);
        let last = parts.last();
        lemma_base64_text(last.contents);
        let named = named_attachments(parts);
        assert forall|i: int| 0 <= i < named.len() implies {
            &&& is_base64_text(#[trigger] named[i].contents)
            &&& exists|j: int|
                0 <= j < parts.len() && parts[j].name == Some(named[i].filename) && base64_decode(
                    named[i].contents,
                ) == parts[j].contents
        } by {
            if i < named_attachments(init).len() {
                assert(named[i] == named_attachments(init)[i]);
                let j = choose|j: int|
                    0 <= j < init.len() && init[j].name == Some(
                        named_attachments(init)[i].filename,
                    ) && base64_decode(named_attachments(init)[i].contents) == init[j].contents;
                assert(parts[j] == init[j]);
            } else {
                assert(parts[parts.len() - 1] == last);
            }
        }
    }
}

/// The message that a parsed mail gives, or the reason there is none: a
/// message needs a sender address and a subject.
pub open spec fn email_of(m: ParsedMailView) -> Result<EmailView, Seq<char>> {
    match m.sender {
        None => Err("sender email not found"@),
        Some(sender) => match m.subject {
            None => Err("email subject not found"@),
            Some(subject) => Ok(
                EmailView {
                    email: sender,
                    title: subject,
                    attachments: named_attachments(m.parts),
                },
            ),
        },
    }
}

/// The message that raw bytes give, or the reason there is none.
pub open spec fn parse_email_spec(data: Seq<u8>) -> Result<EmailView, Seq<char>> {
    match parsed_mail(data) {
        None => Err("failed to parse email"@),
        Some(m) => email_of(m),
    }
}

/// The text of a result of reading a message.
pub open spec fn email_result_view(r: Result<Email, String>) -> Result<EmailView, Seq<char>> {
    match r {
        Ok(e) => Ok(e@),
        Err(s) => Err(s@),
    }
}

/// Builds the message from what the parser yields: the sender's address,
/// the subject, and the named attachments in base64.
pub fn email_from_mail(mail: &ParsedMail) -> (r: Result<Email, String>)
    ensures
        email_result_view(r) == email_of(mail@),
{
    let email = match &mail.sender {
        Some(s) => s.clone(),
        None => return Err("sender email not found".to_owned()),
    };
    let title = match &mail.subject {
        Some(s) => s.clone(),
        None => return Err("email subject not found".to_owned()),
    };
    let ghost parts = mail@.parts;
    let mut attachments: Vec<Attachement> = Vec::new();
    let n = mail.parts.len();
    let mut i: usize = 0;
    while i < n
        invariant
            n == mail.parts@.len(),
            parts == mail@.parts,
            i <= n,
            attachments@.map_values(|a: Attachement| a@) =~= named_attachments(
                parts.take(i as int),
            ),
        decreases n - i,
    {
        let part = &mail.parts[i];
        assert(parts.take(i + 1).drop_last() =~= parts.take(i as int));
        assert(parts[i as int] == part@);
        match &part.name {
            Some(name) => {
                let contents = base64_encode(part.contents.as_slice());
                attachments.push(Attachement { filename: name.clone(), contents });
            },
            None => {},
        }
        i = i + 1;
    }
    assert(parts.take(n as int) =~= parts);
    Ok(Email { email, title, attachments })
}

/// Reads a raw message: fails when it does not parse, has no sender
/// address or no subject; otherwise gives the sender, the subject and the
/// named attachments with their contents in base64.
pub fn parse_email(data: &[u8]) -> (r: Result<Email, String>)
    ensures
        email_result_view(r) == parse_email_spec(data@),
{
    match read_mail(data) {
        None => Err("failed to parse email".to_owned()),
        Some(mail) => email_from_mail(&mail),
    }
}


/// Every attachment of a message read from raw bytes carries base64 text
/// that decodes to the bytes of a part with the same name.
pub proof fn lemma_parse_email_attachments_base64(data: Seq<u8>)
    ensures
        parse_email_spec(data) matches Ok(e) ==> forall|i: int|
            0 <= i < e.attachments.len() ==> {
                &&& is_base64_text(#[trigger] e.attachments[i].contents)
                &&& exists|j: int|
                    0 <= j < parsed_mail(data).unwrap().parts.len() && parsed_mail(
                        data,
                    ).unwrap().parts[j].name == Some(e.attachments[i].filename) && base64_decode(
                        e.attachments[i].contents,
                    ) == parsed_mail(data).unwrap().parts[j].contents
            },
{
    if let Some(m) = parsed_mail(data) {
        lemma_named_attachments_base64(m.parts);
        if let Ok(e) = parse_email_spec(data) {
            assert(e.attachments == named_attachments(m.parts));
            assert forall|i: int| 0 <= i < e.attachments.len() implies {
                &&& is_base64_text(#[trigger] e.attachments[i].contents)
                &&& exists|j: int|
                    0 <= j < m.parts.len() && m.parts[j].name == Some(e.attachments[i].filename)
                        && base64_decode(e.attachments[i].contents) == m.parts[j].contents
            } by {
                assert(e.attachments[i] == named_attachments(m.parts)[i]);
            }
        }
    }
}

/// The parts that carry a name, in order.
pub open spec fn named_parts(parts: Seq<MailPartView>) -> Seq<MailPartView> {
    parts.filter(|p: MailPartView| p.name is Some)
}

/// The attachments taken from the parts are exactly the named parts, in
/// order and none left out: as many as there are named parts, the i-th
/// with the name of the i-th named part and the base64 of its bytes.
pub proof fn lemma_named_attachments_exact(parts: Seq<MailPartView>)
    ensures
        named_attachments(parts).len() == named_parts(parts).len(),
        forall|i: int|
            0 <= i < named_parts(parts).len() ==> Some(#[trigger] named_attachments(parts)[i].filename)
                == named_parts(parts)[i].name && named_attachments(parts)[i].contents
                == base64_standard(named_parts(parts)[i].contents),
    decreases parts.len(),
{
    reveal(Seq::filter);
    if parts.len() > 0 {
        lemma_named_attachments_exact(parts.drop_last());
    }
}

/// Every part with a name gives an attachment with that name whose text is
/// the base64 of the part's bytes.
pub proof fn lemma_every_named_part_attached(parts: Seq<MailPartView>, j: int)
    requires
        0 <= j < parts.len(),
        parts[j].name is Some,
    ensures
        exists|i: int|
            0 <= i < named_attachments(parts).len() && Some(
                #[trigger] named_attachments(parts)[i].filename,
            ) == parts[j].name && named_attachments(parts)[i].contents == base64_standard(
                parts[j].contents,
            ),
{
    broadcast use vstd::seq_lib::group_filter_ensures;

    lemma_named_attachments_exact(parts);
    assert(named_parts(parts).contains(parts[j]));
    let i = choose|i: int| 0 <= i < named_parts(parts).len() && named_parts(parts)[i] == parts[j];
    assert(Some(named_attachments(parts)[i].filename) == parts[j].name);
}

/// A parsed mail with a sender address and a subject gives a message with
/// that sender, that subject and the named parts as attachments; without a
/// sender it is refused as such, and with a sender but no subject too.
pub proof fn lemma_email_of(m: ParsedMailView)
    ensures
        m.sender is None ==> email_of(m) == Err::<EmailView, Seq<char>>("sender email not found"@),
        m.sender is Some && m.subject is None ==> email_of(m) == Err::<EmailView, Seq<char>>(
            "email subject not found"@,
        ),
        m.sender is Some && m.subject is Some ==> email_of(m) is Ok && email_of(m)->Ok_0.email
            == m.sender.unwrap() && email_of(m)->Ok_0.title == m.subject.unwrap()
            && email_of(m)->Ok_0.attachments == named_attachments(m.parts),
{
}

/// Bytes that do not parse as a message are refused as such; bytes that
/// parse give what their parsed mail gives.
pub proof fn lemma_parse_email(data: Seq<u8>)
    ensures
        parsed_mail(data) is None ==> parse_email_spec(data) == Err::<EmailView, Seq<char>>(
            "failed to parse email"@,
        ),
        parsed_mail(data) is Some ==> parse_email_spec(data) == email_of(parsed_mail(data).unwrap()),
{
}

} // verus!
