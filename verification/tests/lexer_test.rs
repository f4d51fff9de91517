use mbox_viewer::storage::lexer::{lex, lex_line, lex_push_current_token, Token};

#[test]
fn test_lex_line_from() {
    let mut boundary = None;
    let token = lex_line(0, "From toto@example.com\n".as_bytes(), &mut boundary, &Token::Ignore);
    match token {
        Token::StartEmail(pos) => assert_eq!(pos, 0),
        _ => panic!("Expected StartEmail token"),
    }
}

#[test]
fn test_lex_line_subject() {
    let mut boundary = None;
    let token = lex_line(10, "Subject: Hello\n".as_bytes(), &mut boundary, &Token::Ignore);
    match token {
        Token::Subject(pos) => assert_eq!(pos, 19),
        _ => panic!("Expected Subject token"),
    }
}

#[test]
fn test_lex_line_date() {
    let mut boundary = None;
    let token = lex_line(
        5,
        "Date: Mon, 1 Jan 2020 00:00:00 +0000\n".as_bytes(),
        &mut boundary,
        &Token::Ignore,
    );
    match token {
        Token::Date(ref s) => assert_eq!(s, "Mon, 1 Jan 2020 00:00:00 +0000\n".as_bytes()),
        _ => panic!("Expected Date token"),
    }
}

#[test]
fn test_lex_line_content_type_with_boundary() {
    let mut boundary = None;
    let token = lex_line(
        0,
        "Content-Type: multipart/mixed; boundary=\"abc123\"\n".as_bytes(),
        &mut boundary,
        &Token::Ignore,
    );
    assert!(matches!(token, Token::Ignore));
    assert_eq!(boundary, Some("abc123".as_bytes().to_vec()));
}

#[test]
fn test_lex_line_ignore() {
    let mut boundary = None;
    let token = lex_line(0, "Random header\n".as_bytes(), &mut boundary, &Token::Ignore);
    assert!(matches!(token, Token::Ignore));
}

#[test]
fn lex_minimal_message() {
    let source = "From a@b\nSubject: Hi\nDate: Wed, 1 Jan 2020 00:00:00 +0000\nFrom: a@b\n\nbody\n";
    let tokens = lex(source.as_bytes());
    let shown: Vec<String> = tokens.iter().map(|t| format!("{:?}", t)).collect();
    assert_eq!(
        shown,
        vec![
            "StartEmail(0)".to_string(),
            "Subject(18)".to_string(),
            "End(21)".to_string(),
            format!("Date({:?})", "Wed, 1 Jan 2020 00:00:00 +0000".as_bytes()),
            "From(64)".to_string(),
            "End(68)".to_string(),
            "BodyStart(68)".to_string(),
            "End(74)".to_string(),
            "End(74)".to_string(),
        ]
    );
}

#[test]
fn closing_a_later_message_start_ends_the_one_before() {
    let mut tokens = Vec::new();
    lex_push_current_token(40, &mut tokens, Token::StartEmail(25), false);
    assert!(matches!(tokens[..], [Token::End(25), Token::StartEmail(25)]));
}

fn shown(tokens: &[Token]) -> Vec<String> {
    tokens.iter().map(|t| format!("{:?}", t)).collect()
}

fn classified(line: &str, boundary: Option<&str>, current: Token) -> (String, Option<Vec<u8>>) {
    let mut active = boundary.map(|b| b.as_bytes().to_vec());
    let token = lex_line(100, line.as_bytes(), &mut active, &current);
    (format!("{:?}", token), active)
}

#[test]
fn a_message_start_puts_an_end_to_the_boundary() {
    let (token, boundary) = classified("From someone", Some("xyz"), Token::Ignore);
    assert_eq!(token, "StartEmail(100)");
    assert_eq!(boundary, None);
}

#[test]
fn headers_are_told_by_their_names() {
    assert_eq!(classified("From: a@b", None, Token::Ignore).0, "From(106)");
    assert_eq!(
        classified("Content-Transfer-Encoding: base64", None, Token::Ignore).0,
        format!("ContentTransferEncoding({:?})", "base64".as_bytes())
    );
    assert_eq!(
        classified("Content-Type: text/html", None, Token::Ignore).0,
        format!("ContentType({:?})", "text/html".as_bytes())
    );
    assert_eq!(classified("Date: ", None, Token::Ignore).0, "Date([])");
    assert_eq!(classified("subject: lower case", None, Token::Ignore).0, "Ignore");
}

#[test]
fn a_boundary_is_declared_between_quotes() {
    let line = "Content-Type: multipart/alternative; boundary=\"--=_Part\"; charset=\"x\"";
    let (token, boundary) = classified(line, Some("old"), Token::Ignore);
    assert_eq!(token, "Ignore");
    assert_eq!(boundary, Some("--=_Part".as_bytes().to_vec()));
    let (token, boundary) = classified("Content-Type: a; boundary=\"\"", None, Token::Ignore);
    assert_eq!(token, "Ignore");
    assert_eq!(boundary, Some(Vec::new()));
}

#[test]
fn a_boundary_that_is_not_quoted_is_no_declaration() {
    let line = "Content-Type: multipart/mixed; boundary=abc";
    let (token, boundary) = classified(line, Some("old"), Token::Ignore);
    assert_eq!(token, format!("ContentType({:?})", "multipart/mixed; boundary=abc".as_bytes()));
    assert_eq!(boundary, Some("old".as_bytes().to_vec()));
    let line = "Content-Type: multipart/mixed; boundary=\"open";
    let (token, boundary) = classified(line, None, Token::Ignore);
    assert_eq!(token, format!("ContentType({:?})", "multipart/mixed; boundary=\"open".as_bytes()));
    assert_eq!(boundary, None);
}

#[test]
fn a_line_that_begins_with_the_boundary_ends_what_is_open() {
    assert_eq!(classified("--xyz--", Some("--xyz"), Token::BodyStart(7)).0, "End(100)");
    assert_eq!(classified("--xyz", Some("xyz"), Token::Ignore).0, "Ignore");
    assert_eq!(classified("", Some(""), Token::Ignore).0, "End(100)");
}

#[test]
fn an_empty_line_starts_a_body() {
    assert_eq!(classified("", None, Token::Ignore).0, "BodyStart(100)");
    assert_eq!(classified("", None, Token::BodyStart(7)).0, "BodyStart(100)");
    assert_eq!(classified("", Some("xyz"), Token::Ignore).0, "Ignore");
    assert_eq!(
        classified("", Some("xyz"), Token::ContentTransferEncoding(Vec::new())).0,
        "BodyStart(100)"
    );
}

#[test]
fn a_line_in_a_body_or_a_folded_line_continues() {
    assert_eq!(classified("some text", None, Token::BodyStart(7)).0, "Continuation");
    assert_eq!(classified("", Some("xyz"), Token::BodyStart(7)).0, "Continuation");
    assert_eq!(classified(" folded", None, Token::Subject(7)).0, "Continuation");
    assert_eq!(classified("not folded", None, Token::Subject(7)).0, "Ignore");
}

#[test]
fn tokens_are_closed_as_their_kind_asks() {
    let mut tokens = Vec::new();
    lex_push_current_token(9, &mut tokens, Token::Ignore, false);
    lex_push_current_token(9, &mut tokens, Token::Continuation, false);
    assert!(tokens.is_empty());
    lex_push_current_token(9, &mut tokens, Token::StartEmail(0), false);
    lex_push_current_token(9, &mut tokens, Token::Date(vec![1]), false);
    lex_push_current_token(9, &mut tokens, Token::ContentType(vec![2]), false);
    lex_push_current_token(9, &mut tokens, Token::ContentTransferEncoding(vec![3]), false);
    lex_push_current_token(9, &mut tokens, Token::End(4), false);
    assert_eq!(
        shown(&tokens),
        vec![
            "StartEmail(0)",
            "Date([1])",
            "ContentType([2])",
            "ContentTransferEncoding([3])",
            "End(4)"
        ]
    );
    let mut tokens = Vec::new();
    lex_push_current_token(9, &mut tokens, Token::From(5), false);
    lex_push_current_token(12, &mut tokens, Token::Subject(10), false);
    lex_push_current_token(20, &mut tokens, Token::BodyStart(13), false);
    assert_eq!(
        shown(&tokens),
        vec!["From(5)", "End(9)", "Subject(10)", "End(12)", "BodyStart(13)", "End(20)"]
    );
}

#[test]
fn the_end_of_the_source_closes_with_a_last_end() {
    let mut tokens = Vec::new();
    lex_push_current_token(30, &mut tokens, Token::BodyStart(13), true);
    assert_eq!(shown(&tokens), vec!["BodyStart(13)", "End(30)", "End(30)"]);
    let mut tokens = Vec::new();
    lex_push_current_token(30, &mut tokens, Token::StartEmail(25), true);
    assert_eq!(shown(&tokens), vec!["End(30)"]);
    let mut tokens = Vec::new();
    lex_push_current_token(30, &mut tokens, Token::Ignore, true);
    assert_eq!(shown(&tokens), vec!["End(30)"]);
}

#[test]
fn an_empty_source_lexes_to_a_single_end() {
    assert_eq!(shown(&lex(&[])), vec!["End(0)"]);
}

#[test]
fn a_last_line_without_a_line_feed_is_a_line() {
    let tokens = lex("From a@b\nSubject: last".as_bytes());
    assert_eq!(shown(&tokens), vec!["StartEmail(0)", "Subject(18)", "End(22)", "End(22)"]);
}

#[test]
fn a_message_that_only_opens_at_the_end_is_dropped() {
    let tokens = lex("From a@b\n\nbody\nFrom c@d\n".as_bytes());
    assert_eq!(shown(&tokens), vec!["StartEmail(0)", "BodyStart(9)", "End(15)", "End(24)"]);
}

#[test]
fn two_messages_are_parted_by_an_end_at_the_start_of_the_second() {
    let tokens = lex("From a@b\n\nx\nFrom c@d\n\ny\n".as_bytes());
    assert_eq!(
        shown(&tokens),
        vec![
            "StartEmail(0)",
            "BodyStart(9)",
            "End(12)",
            "End(12)",
            "StartEmail(12)",
            "BodyStart(21)",
            "End(24)",
            "End(24)"
        ]
    );
}
