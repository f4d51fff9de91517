use mbox_viewer::storage::decode::parse_date;
use mbox_viewer::storage::file::{body_from_decoded, header_from_decoded, MboxFile};
use mbox_viewer::storage::lexer::{lex, Token};
use mbox_viewer::storage::parser::{parse, BodyFilePtr, EmailFilePtrValidator, Parser};
use mbox_viewer::storage::{MailStorageRepository, MailboxError};

fn three_messages() -> Vec<u8> {
    let mut source = String::new();
    source.push_str("From noreply@education.example Mon Aug  4 03:56:07 2025\n");
    source.push_str("Subject: =?ISO-8859-1?Q?[l.educonnect.cp]_=C9duConnect_-_Perturbation_sur_le?=\n");
    source.push_str(" =?ISO-8859-1?Q?_service_d'authentification_responsables_et_=E9l=E8ves?=\n");
    source.push_str("From: =?UTF-8?Q?Acad=C3=A9mie?= <noreply@education.example>\n");
    source.push_str("Date: Mon, 4 Aug 2025 11:56:07 +0800\n");
    source.push_str("\n");
    source.push_str("Bonjour,=20\n");
    source.push_str("le service est perturb=C3=A9.\n");
    source.push_str("From dev@apisix.example Tue Aug  5 10:00:00 2025\n");
    source.push_str("Subject: Re: [VOTE] Apache apisix-ingress-controller release version 2.0.0-rc3\n");
    source.push_str("From: Dev <dev@apisix.example>\n");
    source.push_str("Date: Tue, 5 Aug 2025 10:00:00 +0000\n");
    source.push_str("\n");
    source.push_str("+1 from me\n");
    source.push_str("From rh@logiciel.example Wed Aug  6 09:30:00 2025\n");
    source.push_str("Subject: =?UTF-8?Q?Modernisez_vos_processus_RH_sans_complexit=C3=A9?=\n");
    source.push_str("From: RH <rh@logiciel.example>\n");
    source.push_str("Date: Wed, 6 Aug 2025 09:30:00 +0200\n");
    source.push_str("\n");
    source.push_str("Une mise =C3=A0 jour de logiciel est disponible.\n");
    source.into_bytes()
}

fn plain_and_html() -> Vec<u8> {
    let mut source = String::new();
    source.push_str("From news@example.com Thu Aug  7 08:00:00 2025\n");
    source.push_str("Subject: Two bodies\n");
    source.push_str("From: News <news@example.com>\n");
    source.push_str("Date: Thu, 7 Aug 2025 08:00:00 +0000\n");
    source.push_str("Content-Type: text/plain; charset=utf-8\n");
    source.push_str("Content-Transfer-Encoding: quoted-printable\n");
    source.push_str("\n");
    source.push_str("plain words\n");
    source.push_str("Content-Type: text/html; charset=utf-8\n");
    source.push_str("Content-Transfer-Encoding: quoted-printable\n");
    source.push_str("\n");
    source.push_str("<p>marked words</p>\n");
    source.into_bytes()
}

#[test]
fn test_datetime() {
    let date = "Mon, 4 Aug 2025 11:56:07 +0800";
    let datetime = chrono::DateTime::parse_from_rfc2822(&date).ok().map(|dt| dt.to_utc());
    assert!(datetime.is_some());
    assert_eq!(parse_date(date.as_bytes()), Some((1754279767, 0)));
}

#[test]
fn a_date_that_is_no_date_gives_nothing() {
    assert_eq!(parse_date("the day after tomorrow".as_bytes()), None);
    assert_eq!(parse_date(&[0xff, 0xfe]), None);
}

#[test]
fn test_seek_positions() {
    let mut source = String::new();
    source.push_str("From MAILER-DAEMON 00000\n");
    source.push_str("From dev@apisix.example Tue Aug  5 10:00:00 2025\n");
    source.push_str("Subject: Hello\n");
    source.push_str("From: Dev <dev@apisix.example>\n");
    source.push_str("Date: Tue, 5 Aug 2025 10:00:00 +0000\n");
    source.push_str("\n");
    source.push_str("body\n");
    let tokens = lex(source.as_bytes());
    let res = parse(&tokens);
    assert!(res.is_ok());
    let emails = res.unwrap();
    println!("emails len : {}", emails.len());
    assert_eq!(1, emails.len());
    assert_eq!(25, emails[0].email.0);
}

#[test]
fn test_parse_file() {
    let source = three_messages();
    let tokens = lex(&source);
    let emails = parse(&tokens);
    assert!(emails.is_ok());
    assert_eq!(3, emails.unwrap().len());
}

#[test]
fn test_lex_file() {
    let source = three_messages();
    let tokens = lex(&source);
    assert!(matches!(tokens[0], Token::StartEmail(0)));
    assert!(matches!(tokens[tokens.len() - 1], Token::End(end) if end as usize == source.len()));
}

#[test]
fn test_count_emails() {
    let email_repository = MboxFile::new(three_messages()).unwrap();
    assert_eq!(3, email_repository.count_emails().unwrap())
}

#[test]
fn test_get_email() {
    let email_repository = MboxFile::new(three_messages()).unwrap();
    let email = email_repository.get_email(&1).unwrap();
    assert_eq!(
        "Re: [VOTE] Apache apisix-ingress-controller release version 2.0.0-rc3",
        email.subject
    );
    assert!(email.body_html.is_none());
    assert!(email.body_text.is_some());
}

#[test]
fn test_get_email_encoded_word_iso_8859_1() {
    let email_repository = MboxFile::new(three_messages()).unwrap();
    let email = email_repository.get_email(&0).unwrap();
    assert_eq!(
        "[l.educonnect.cp] ÉduConnect - Perturbation sur le service d'authentification responsables et élèves",
        email.subject
    );
    assert!(email.body_html.is_none());
    assert!(email.body_text.is_some());
}

#[test]
fn test_get_email_encoded_word_utf8() {
    let email_repository = MboxFile::new(three_messages()).unwrap();
    let email = email_repository.get_email(&2).unwrap();
    assert_eq!("Modernisez vos processus RH sans complexité", email.subject);
    assert!(email.body_html.is_none());
    assert!(email.body_text.is_some());
}

#[test]
fn a_message_is_resolved_in_full() {
    let email_repository = MboxFile::new(three_messages()).unwrap();
    let email = email_repository.get_email(&0).unwrap();
    assert_eq!(email.id, 0);
    assert_eq!(email.from, "Académie <noreply@education.example>");
    assert_eq!(email.datetime, (1754279767, 0));
    assert_eq!(email.body_text.unwrap(), "\r\nBonjour, \r\nle service est perturbé.\r\n");
}

#[test]
fn an_identifier_beyond_the_records_is_not_found() {
    let email_repository = MboxFile::new(three_messages()).unwrap();
    assert_eq!(email_repository.get_email(&3).err(), Some(MailboxError::EmailNotFound));
    assert_eq!(email_repository.get_email(&usize::MAX).err(), Some(MailboxError::EmailNotFound));
}

#[test]
fn a_single_minimal_message_spans_the_whole_source() {
    let source = "From a@b\nSubject: Hi\nDate: Wed, 1 Jan 2020 00:00:00 +0000\nFrom: a@b\n\nbody\n";
    let tokens = lex(source.as_bytes());
    let emails = parse(&tokens).unwrap();
    assert_eq!(emails.len(), 1);
    assert_eq!(emails[0].email, (0, source.len() as u64));
    assert_eq!(emails[0].subject, (18, 21));
    assert_eq!(emails[0].from, (64, 68));
    assert_eq!(emails[0].datetime, (1577836800, 0));
    assert_eq!(emails[0].bodies.len(), 1);
    assert_eq!(emails[0].bodies[0].content, (68, 74));
    assert_eq!(emails[0].bodies[0].content_type, "text/plain".as_bytes());
    assert_eq!(emails[0].bodies[0].content_transfer_encoding, "quoted-printable".as_bytes());
}

#[test]
fn every_range_of_a_record_lies_in_its_message() {
    let mut source = three_messages();
    source.extend(plain_and_html());
    let tokens = lex(&source);
    let emails = parse(&tokens).unwrap();
    assert_eq!(emails.len(), 4);
    let apart = |a: (u64, u64), b: (u64, u64)| a.1 <= b.0 || b.1 <= a.0;
    for email in &emails {
        assert!(email.email.0 <= email.email.1 && email.email.1 <= source.len() as u64);
        for range in [email.subject, email.from] {
            assert!(email.email.0 <= range.0 && range.0 <= range.1 && range.1 <= email.email.1);
        }
        assert!(apart(email.subject, email.from));
        let mut last_end = email.email.0;
        for body in &email.bodies {
            assert!(last_end <= body.content.0);
            assert!(body.content.0 <= body.content.1 && body.content.1 <= email.email.1);
            assert!(apart(email.subject, body.content) && apart(email.from, body.content));
            last_end = body.content.1;
        }
    }
    for pair in emails.windows(2) {
        assert!(pair[0].email.1 <= pair[1].email.0);
    }
    assert_eq!(emails[0].email.0, 0);
    assert_eq!(emails[3].email.1, source.len() as u64);
}

#[test]
fn a_message_without_a_date_is_dropped_and_the_others_stay() {
    let mut source = String::new();
    source.push_str("From a@b\nSubject: one\nFrom: a@b\nDate: Wed, 1 Jan 2020 00:00:00 +0000\n\nx\n");
    source.push_str("From c@d\nSubject: two\nFrom: c@d\n\ny\n");
    source.push_str("From e@f\nSubject: three\nFrom: e@f\nDate: not a date\n\nz\n");
    source.push_str("From g@h\nSubject: four\nFrom: g@h\nDate: Thu, 2 Jan 2020 00:00:00 +0000\n\nw\n");
    let email_repository = MboxFile::new(source.into_bytes()).unwrap();
    assert_eq!(email_repository.count_emails().unwrap(), 2);
    assert_eq!(email_repository.get_email(&0).unwrap().subject, "one");
    assert_eq!(email_repository.get_email(&1).unwrap().subject, "four");
}

#[test]
fn a_source_without_a_message_does_not_load() {
    assert_eq!(MboxFile::new(Vec::new()).err(), Some(MailboxError::MboxParseError));
    assert_eq!(
        MboxFile::new("Subject: stray\n".as_bytes().to_vec()).err(),
        Some(MailboxError::MboxParseError)
    );
}

#[test]
fn a_content_type_that_no_body_takes_up_fails_the_load() {
    let source = "From a@b\nSubject: s\nFrom: a@b\nDate: Wed, 1 Jan 2020 00:00:00 +0000\nContent-Type: text/plain\n\nbody\n";
    assert_eq!(
        MboxFile::new(source.as_bytes().to_vec()).err(),
        Some(MailboxError::MboxParseError)
    );
}

#[test]
fn plain_and_html_bodies_are_both_resolved() {
    let email_repository = MboxFile::new(plain_and_html()).unwrap();
    assert_eq!(email_repository.count_emails().unwrap(), 1);
    let email = email_repository.get_email(&0).unwrap();
    let text = email.body_text.unwrap();
    let html = email.body_html.unwrap();
    assert_eq!(text, "\r\nplain words\r\n");
    assert_eq!(html, "\r\n<p>marked words</p>\r\n");
    assert_ne!(text, html);
}

#[test]
fn the_walk_passes_over_a_message_that_does_not_resolve() {
    let mut source = String::new();
    source.push_str("From a@b\nSubject: one\nFrom: a@b\nDate: Wed, 1 Jan 2020 00:00:00 +0000\n\nx\n");
    source.push_str("From c@d\nSubject: =?UTF-8?B?!!!!?=\nFrom: c@d\nDate: Wed, 1 Jan 2020 00:00:00 +0000\n\ny\n");
    source.push_str("From e@f\nSubject: three\nFrom: e@f\nDate: Wed, 1 Jan 2020 00:00:00 +0000\n\nz\n");
    let email_repository = MboxFile::new(source.into_bytes()).unwrap();
    assert_eq!(email_repository.count_emails().unwrap(), 3);
    assert_eq!(
        email_repository.get_email(&1).err(),
        Some(MailboxError::EncodedWordDecodeError)
    );
    let mut walk = email_repository.emails();
    assert_eq!(walk.next().unwrap().subject, "one");
    assert_eq!(walk.next().unwrap().subject, "three");
    assert!(walk.next().is_none());
    assert!(walk.next().is_none());
    let mut again = email_repository.emails();
    assert_eq!(again.next().unwrap().id, 0);
}

#[test]
fn a_body_that_is_not_utf8_is_left_out() {
    let source = "From a@b\nSubject: s\nFrom: a@b\nDate: Wed, 1 Jan 2020 00:00:00 +0000\n\n=FF=FE\n";
    let email_repository = MboxFile::new(source.as_bytes().to_vec()).unwrap();
    let email = email_repository.get_email(&0).unwrap();
    assert!(email.body_text.is_none());
    assert!(email.body_html.is_none());
}

#[test]
fn decoded_headers_lose_their_line_feeds() {
    assert_eq!(header_from_decoded(Ok("a\nb\n".to_string())), Ok("ab".to_string()));
    assert_eq!(
        header_from_decoded(rfc2047_decoder::decode("=?UTF-8?B?!!!!?=".as_bytes())),
        Err(MailboxError::EncodedWordDecodeError)
    );
}

#[test]
fn decoded_bodies_must_be_utf8() {
    assert_eq!(body_from_decoded(Ok(vec![0x68, 0x69])), Ok("hi".to_string()));
    assert_eq!(body_from_decoded(Ok(vec![0xff])), Err(MailboxError::UTF8EncodeError));
    assert_eq!(
        body_from_decoded(Err(quoted_printable::QuotedPrintableError::InvalidByte)),
        Err(MailboxError::DecodeQuotedPrintableError)
    );
}

#[test]
fn a_body_is_html_when_its_type_says_so() {
    let html = BodyFilePtr {
        content_type: "text/html; charset=utf-8".as_bytes().to_vec(),
        content_transfer_encoding: "quoted-printable".as_bytes().to_vec(),
        content: (0, 0),
    };
    let plain = BodyFilePtr {
        content_type: "text/plain".as_bytes().to_vec(),
        content_transfer_encoding: "7bit".as_bytes().to_vec(),
        content: (0, 0),
    };
    assert!(html.is_html());
    assert!(!plain.is_html());
}

#[test]
fn an_incomplete_draft_does_not_validate() {
    let mut draft = EmailFilePtrValidator::new();
    draft.email = Some((0, 10));
    draft.subject = Some((1, 2));
    draft.from = Some((3, 4));
    assert_eq!(draft.validate().err(), Some(MailboxError::MboxValidationError));
    let mut draft = EmailFilePtrValidator::new();
    draft.email = Some((0, 10));
    draft.subject = Some((1, 2));
    draft.from = Some((3, 4));
    draft.datetime = Some((5, 0));
    let record = draft.validate().unwrap();
    assert_eq!(record.email, (0, 10));
    assert_eq!(record.datetime, (5, 0));
}

#[test]
fn an_end_with_nothing_open_is_a_structural_error() {
    let tokens = vec![Token::End(3)];
    assert_eq!(parse(&tokens).err(), Some(MailboxError::MboxParseError));
    let tokens = vec![Token::ContentType("text/plain".as_bytes().to_vec()), Token::End(3)];
    assert_eq!(parse(&tokens).err(), Some(MailboxError::MboxParseError));
}

#[test]
fn a_message_start_over_open_tokens_clears_them() {
    let tokens = vec![
        Token::StartEmail(0),
        Token::Subject(5),
        Token::StartEmail(9),
        Token::End(12),
    ];
    assert_eq!(parse(&tokens).err(), Some(MailboxError::MboxParseError));
    let mut parser = Parser::new();
    assert!(parser.accept(&tokens[0], None).is_ok());
    assert!(parser.accept(&tokens[1], None).is_ok());
    assert!(parser.accept(&tokens[2], None).is_ok());
    assert_eq!(parser.accept(&tokens[3], None), Err(MailboxError::MboxParseError));
}

#[test]
fn the_parser_takes_the_date_it_is_given() {
    let tokens = vec![
        Token::StartEmail(0),
        Token::Subject(1),
        Token::End(2),
        Token::From(3),
        Token::End(4),
        Token::Date(Vec::new()),
        Token::End(9),
    ];
    let mut parser = Parser::new();
    for token in &tokens {
        assert!(parser.accept(token, Some((42, 7))).is_ok());
    }
    let emails = parser.finish();
    assert_eq!(emails.len(), 1);
    assert_eq!(emails[0].datetime, (42, 7));
    assert_eq!(emails[0].email, (0, 9));
}

#[test]
fn errors_render_as_their_names() {
    assert_eq!(MailboxError::MboxFileNotFound.to_string(), "MboxFileNotFound");
    assert_eq!(MailboxError::EncodedWordDecodeError.to_string(), "EncodedWordDecodeError");
    assert_eq!(MailboxError::UTF8EncodeError.to_string(), "UTF8EncodeError");
}

#[test]
fn a_body_takes_its_type_from_the_headers_on_the_stack() {
    let ct = Token::ContentType("text/html".as_bytes().to_vec());
    let cte = Token::ContentTransferEncoding("base64".as_bytes().to_vec());
    let tokens = vec![
        Token::StartEmail(0),
        ct,
        cte,
        Token::BodyStart(10),
        Token::End(20),
        Token::BodyStart(20),
        Token::End(30),
        Token::Subject(1),
        Token::End(2),
        Token::From(3),
        Token::End(4),
        Token::Date("Wed, 1 Jan 2020 00:00:00 +0000".as_bytes().to_vec()),
        Token::End(40),
    ];
    let emails = parse(&tokens).unwrap();
    assert_eq!(emails.len(), 1);
    assert_eq!(emails[0].bodies.len(), 2);
    assert_eq!(emails[0].bodies[0].content_type, "text/html".as_bytes());
    assert_eq!(emails[0].bodies[0].content_transfer_encoding, "base64".as_bytes());
    assert_eq!(emails[0].bodies[0].content, (10, 20));
    assert!(emails[0].bodies[0].is_html());
    assert_eq!(emails[0].bodies[1].content_type, "text/plain".as_bytes());
    assert_eq!(emails[0].bodies[1].content_transfer_encoding, "quoted-printable".as_bytes());
    assert_eq!(emails[0].bodies[1].content, (20, 30));
}

#[test]
fn headers_in_the_other_order_do_not_type_a_body() {
    let tokens = vec![
        Token::ContentTransferEncoding("base64".as_bytes().to_vec()),
        Token::ContentType("text/html".as_bytes().to_vec()),
        Token::BodyStart(10),
        Token::End(20),
    ];
    let mut parser = Parser::new();
    for token in &tokens {
        assert!(parser.accept(token, None).is_ok());
    }
    assert_eq!(parser.accept(&Token::End(21), None), Err(MailboxError::MboxParseError));
}

#[test]
fn a_later_date_that_fails_unsets_the_date() {
    let tokens = vec![
        Token::StartEmail(0),
        Token::Subject(1),
        Token::End(2),
        Token::From(3),
        Token::End(4),
        Token::Date("Wed, 1 Jan 2020 00:00:00 +0000".as_bytes().to_vec()),
        Token::Date("yesterday".as_bytes().to_vec()),
        Token::End(40),
    ];
    assert_eq!(parse(&tokens).unwrap().len(), 0);
}

#[test]
fn the_first_body_of_each_kind_is_the_one_resolved() {
    let mut source = String::new();
    source.push_str("From a@b\nSubject: s\nFrom: a@b\nDate: Wed, 1 Jan 2020 00:00:00 +0000\n");
    source.push_str("\nfirst\n\nsecond\n");
    let email_repository = MboxFile::new(source.into_bytes()).unwrap();
    let email = email_repository.get_email(&0).unwrap();
    assert_eq!(email.body_text.unwrap(), "\r\nfirst\r\n");
    assert!(email.body_html.is_none());
}
