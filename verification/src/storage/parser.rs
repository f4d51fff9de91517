use vstd::prelude::*;
use vstd::string::*;
use crate::storage::bytes::{contains, contains_bytes};
use crate::storage::decode::{date_value, parse_date};
use crate::storage::lexer::{Token, TokenView, token_views};
use crate::storage::MailboxError;

verus! {

/// A half-open range of byte offsets: the first offset and the one after the last.
pub type SeekRange = (u64, u64);

/// Where one body of a message lies, and how it is typed and encoded.
#[derive(Debug)]
pub struct BodyFilePtr {
    pub content_type: Vec<u8>,
    pub content_transfer_encoding: Vec<u8>,
    pub content: SeekRange,
}

/// The mathematical value of a [`BodyFilePtr`].
pub struct BodyView {
    pub content_type: Seq<u8>,
    pub content_transfer_encoding: Seq<u8>,
    pub content: SeekRange,
}

impl View for BodyFilePtr {
    type V = BodyView;

    open spec fn view(&self) -> BodyView {
        BodyView {
            content_type: self.content_type@,
            content_transfer_encoding: self.content_transfer_encoding@,
            content: self.content,
        }
    }
}

impl BodyView {
    /// The body is HTML when its content type mentions `text/html`.
    pub open spec fn is_html(self) -> bool {
        contains_bytes(self.content_type, "text/html".spec_bytes())
    }
}

impl BodyFilePtr {
    /// Is this body HTML?
    pub fn is_html(&self) -> (html: bool)
        ensures
            html == self@.is_html(),
    {
        contains(self.content_type.as_slice(), "text/html".as_bytes())
    }
}

/// The values of a run of bodies.
pub open spec fn body_views(bodies: Seq<BodyFilePtr>) -> Seq<BodyView> {
    bodies.map_values(|b: BodyFilePtr| b@)
}

/// Where one message lies in the source: the whole of it, its headers' values and its bodies.
#[derive(Debug)]
pub struct EmailFilePtr {
    pub email: SeekRange,
    pub subject: SeekRange,
    pub from: SeekRange,
    /// Seconds since the Unix epoch in UTC, and the nanoseconds within that second.
    pub datetime: (i64, u32),
    pub bodies: Vec<BodyFilePtr>,
}

/// The mathematical value of an [`EmailFilePtr`].
pub struct EmailView {
    pub email: SeekRange,
    pub subject: SeekRange,
    pub from: SeekRange,
    pub datetime: (i64, u32),
    pub bodies: Seq<BodyView>,
}

impl View for EmailFilePtr {
    type V = EmailView;

    open spec fn view(&self) -> EmailView {
        EmailView {
            email: self.email,
            subject: self.subject,
            from: self.from,
            datetime: self.datetime,
            bodies: body_views(self.bodies@),
        }
    }
}

/// The values of a run of records.
pub open spec fn email_views(emails: Seq<EmailFilePtr>) -> Seq<EmailView> {
    emails.map_values(|e: EmailFilePtr| e@)
}

/// A record in the making: what has been seen of the message that is open.
#[derive(Debug)]
pub struct EmailFilePtrValidator {
    pub email: Option<SeekRange>,
    pub subject: Option<SeekRange>,
    pub from: Option<SeekRange>,
    pub datetime: Option<(i64, u32)>,
    pub bodies: Vec<BodyFilePtr>,
}

/// The mathematical value of an [`EmailFilePtrValidator`].
pub struct DraftView {
    pub email: Option<SeekRange>,
    pub subject: Option<SeekRange>,
    pub from: Option<SeekRange>,
    pub datetime: Option<(i64, u32)>,
    pub bodies: Seq<BodyView>,
}

impl DraftView {
    /// The draft of a message of which nothing has been seen.
    pub open spec fn fresh() -> DraftView {
        DraftView { email: None, subject: None, from: None, datetime: None, bodies: Seq::empty() }
    }

    /// A draft is complete when the message's range, subject, sender and date are known.
    pub open spec fn complete(self) -> bool {
        self.email is Some && self.subject is Some && self.from is Some && self.datetime is Some
    }

    /// The record that a complete draft stands for.
    pub open spec fn record(self) -> EmailView {
        EmailView {
            email: self.email->0,
            subject: self.subject->0,
            from: self.from->0,
            datetime: self.datetime->0,
            bodies: self.bodies,
        }
    }
}

impl View for EmailFilePtrValidator {
    type V = DraftView;

    open spec fn view(&self) -> DraftView {
        DraftView {
            email: self.email,
            subject: self.subject,
            from: self.from,
            datetime: self.datetime,
            bodies: body_views(self.bodies@),
        }
    }
}

impl EmailFilePtrValidator {
    /// A draft of which nothing is known yet.
    pub fn new() -> (draft: Self)
        ensures
            draft@ == DraftView::fresh(),
    {
        let draft = Self { email: None, subject: None, from: None, datetime: None, bodies: Vec::new() };
        assert(body_views(draft.bodies@) =~= Seq::<BodyView>::empty());
        draft
    }

    /// Turns the draft into a record if it is complete, and reports a validation error if not.
    pub fn validate(self) -> (res: Result<EmailFilePtr, MailboxError>)
        ensures
            self@.complete() ==> res is Ok && res->Ok_0@ == self@.record(),
            !self@.complete() ==> res == Err::<EmailFilePtr, MailboxError>(
                MailboxError::MboxValidationError,
            ),
    {
        match (self.email, self.subject, self.from, self.datetime) {
            (Some(email), Some(subject), Some(from), Some(datetime)) => Ok(
                EmailFilePtr { email, subject, from, datetime, bodies: self.bodies },
            ),
            _ => Err(MailboxError::MboxValidationError),
        }
    }
}

/// What the parser holds between two tokens.
pub struct ParseState {
    /// The tokens that wait for their `End`, the latest last.
    pub stack: Seq<TokenView>,
    /// The draft of the message that is open.
    pub draft: DraftView,
    /// The records found so far.
    pub emails: Seq<EmailView>,
}

impl ParseState {
    /// The state before the first token.
    pub open spec fn start() -> ParseState {
        ParseState { stack: Seq::empty(), draft: DraftView::fresh(), emails: Seq::empty() }
    }
}

/// The state after an `End` at `end` has closed a `BodyStart` at `start`, which has already
/// left the stack. A transfer encoding on top of a content type, if the stack ends with them,
/// leave the stack and type the body; any other body is quoted-printable plain text.
pub open spec fn close_body(st: ParseState, start: u64, end: u64) -> ParseState {
    let n = st.stack.len() as int;
    if n >= 2 && st.stack[n - 1] is ContentTransferEncoding && st.stack[n - 2] is ContentType {
        ParseState {
            stack: st.stack.take(n - 2),
            draft: DraftView {
                bodies: st.draft.bodies.push(
                    BodyView {
                        content_type: st.stack[n - 2]->ContentType_0,
                        content_transfer_encoding: st.stack[n - 1]->ContentTransferEncoding_0,
                        content: (start, end),
                    },
                ),
                ..st.draft
            },
            emails: st.emails,
        }
    } else {
        ParseState {
            stack: st.stack,
            draft: DraftView {
                bodies: st.draft.bodies.push(
                    BodyView {
                        content_type: "text/plain".spec_bytes(),
                        content_transfer_encoding: "quoted-printable".spec_bytes(),
                        content: (start, end),
                    },
                ),
                ..st.draft
            },
            emails: st.emails,
        }
    }
}

/// The state after an `End` at `end` has closed the message that a `StartEmail` at `start`
/// opened: the draft becomes a record if it is complete and is dropped if not, and a fresh
/// draft takes its place.
pub open spec fn close_email(st: ParseState, start: u64, end: u64) -> ParseState {
    let draft = DraftView { email: Some((start, end)), ..st.draft };
    ParseState {
        stack: st.stack,
        draft: DraftView::fresh(),
        emails: if draft.complete() {
            st.emails.push(draft.record())
        } else {
            st.emails
        },
    }
}

/// The state after `token`, or `None` where the token stream is malformed. `date` is the
/// instant that the token's value stands for, where the token is a date.
pub open spec fn parse_step_with(st: ParseState, token: TokenView, date: Option<(i64, u32)>) -> Option<
    ParseState,
> {
    match token {
        TokenView::End(end) => {
            if st.stack.len() == 0 {
                None
            } else {
                let rest = ParseState { stack: st.stack.drop_last(), ..st };
                match st.stack.last() {
                    TokenView::BodyStart(start) => Some(close_body(rest, start, end)),
                    TokenView::From(start) => Some(
                        ParseState {
                            draft: DraftView { from: Some((start, end)), ..st.draft },
                            ..rest
                        },
                    ),
                    TokenView::Subject(start) => Some(
                        ParseState {
                            draft: DraftView { subject: Some((start, end)), ..st.draft },
                            ..rest
                        },
                    ),
                    TokenView::StartEmail(start) => Some(close_email(rest, start, end)),
                    _ => None,
                }
            }
        },
        TokenView::Date(_) => Some(ParseState { draft: DraftView { datetime: date, ..st.draft }, ..st }),
        TokenView::StartEmail(_) => if st.stack.len() > 0 {
            Some(ParseState { stack: Seq::empty(), ..st })
        } else {
            Some(ParseState { stack: st.stack.push(token), ..st })
        },
        _ => Some(ParseState { stack: st.stack.push(token), ..st }),
    }
}

/// The instant that a token's value stands for, where the token is a date.
pub open spec fn token_date(token: TokenView) -> Option<(i64, u32)> {
    match token {
        TokenView::Date(raw) => date_value(raw),
        _ => None,
    }
}

/// The state after `token`, or `None` where the token stream is malformed.
pub open spec fn parse_step(st: ParseState, token: TokenView) -> Option<ParseState> {
    parse_step_with(st, token, token_date(token))
}

/// The state after the first `n` tokens, or `None` where they are malformed.
pub open spec fn parse_upto(tokens: Seq<TokenView>, n: nat) -> Option<ParseState>
    decreases n,
{
    if n == 0 || n > tokens.len() {
        Some(ParseState::start())
    } else {
        match parse_upto(tokens, (n - 1) as nat) {
            Some(st) => parse_step(st, tokens[n - 1]),
            None => None,
        }
    }
}

/// The records of a token stream, or the structural error that a malformed stream gives.
pub open spec fn parse_spec(tokens: Seq<TokenView>) -> Result<Seq<EmailView>, MailboxError> {
    match parse_upto(tokens, tokens.len()) {
        Some(st) => Ok(st.emails),
        None => Err(MailboxError::MboxParseError),
    }
}

/// The parser between two tokens.
pub struct Parser<'a> {
    stack: Vec<&'a Token>,
    validator: EmailFilePtrValidator,
    emails: Vec<EmailFilePtr>,
}

impl<'a> View for Parser<'a> {
    type V = ParseState;

    closed spec fn view(&self) -> ParseState {
        ParseState {
            stack: self.stack@.map_values(|t: &Token| t@),
            draft: self.validator@,
            emails: email_views(self.emails@),
        }
    }
}

impl<'a> Parser<'a> {
    /// The parser before the first token.
    pub fn new() -> (parser: Self)
        ensures
            parser@ == ParseState::start(),
    {
        let parser = Parser { stack: Vec::new(), validator: EmailFilePtrValidator::new(), emails: Vec::new() };
        assert(parser@.stack =~= Seq::<TokenView>::empty());
        assert(parser@.emails =~= Seq::<EmailView>::empty());
        parser
    }

    /// Takes one token. `date` is the instant that the token's value stands for, where the
    /// token is a date. A malformed stream gives a structural error.
    pub fn accept(&mut self, token: &'a Token, date: Option<(i64, u32)>) -> (res: Result<(), MailboxError>)
        ensures
            match parse_step_with(old(self)@, token@, date) {
                Some(st) => res is Ok && final(self)@ == st,
                None => res == Err::<(), MailboxError>(MailboxError::MboxParseError)
                    && final(self)@ == old(self)@,
            },
    {
        let ghost before = self@;
        match token {
            Token::End(end_pos) => {
                if self.stack.len() == 0 {
                    return Err(MailboxError::MboxParseError);
                }
                let top: &Token = self.stack[self.stack.len() - 1];
                match top {
                    Token::BodyStart(start_pos) => {
                        self.stack.pop();
                        assert(self@.stack =~= before.stack.drop_last());
                        assert(self@ == ParseState { stack: before.stack.drop_last(), ..before });
                        self.close_body(*start_pos, *end_pos);
                    },
                    Token::From(start_pos) => {
                        self.stack.pop();
                        self.validator.from = Some((*start_pos, *end_pos));
                        assert(self@.stack =~= before.stack.drop_last());
                    },
                    Token::Subject(start_pos) => {
                        self.stack.pop();
                        self.validator.subject = Some((*start_pos, *end_pos));
                        assert(self@.stack =~= before.stack.drop_last());
                    },
                    Token::StartEmail(start_pos) => {
                        self.stack.pop();
                        self.validator.email = Some((*start_pos, *end_pos));
                        let mut draft = EmailFilePtrValidator::new();
                        std::mem::swap(&mut draft, &mut self.validator);
                        match draft.validate() {
                            Ok(email_ptr) => {
                                self.emails.push(email_ptr);
                            },
                            Err(_) => {},
                        }
                        assert(self@.stack =~= before.stack.drop_last());
                        assert(self@.emails =~= close_email(
                            ParseState { stack: before.stack.drop_last(), ..before },
                            *start_pos,
                            *end_pos,
                        ).emails);
                    },
                    _ => {
                        return Err(MailboxError::MboxParseError);
                    },
                }
            },
            Token::Date(_) => {
                self.validator.datetime = date;
            },
            Token::StartEmail(_) => {
                if self.stack.len() > 0 {
                    self.stack.clear();
                    assert(self@.stack =~= Seq::<TokenView>::empty());
                } else {
                    self.stack.push(token);
                    assert(self@.stack =~= before.stack.push(token@));
                }
            },
            _ => {
                self.stack.push(token);
                assert(self@.stack =~= before.stack.push(token@));
            },
        }
        Ok(())
    }

    /// Adds the body that runs from `start` to `end` to the draft, typed by what the stack
    /// ends with.
    fn close_body(&mut self, start: u64, end: u64)
        ensures
            final(self)@ == close_body(old(self)@, start, end),
    {
        let ghost before = self@;
        let n = self.stack.len();
        let mut typed: Option<(Vec<u8>, Vec<u8>)> = None;
        if n >= 2 {
            let first: &Token = self.stack[n - 1];
            let second: &Token = self.stack[n - 2];
            match (first, second) {
                (Token::ContentTransferEncoding(cte), Token::ContentType(ct)) => {
                    typed = Some(
                        (
                            vstd::slice::slice_to_vec(ct.as_slice()),
                            vstd::slice::slice_to_vec(cte.as_slice()),
                        ),
                    );
                },
                _ => {},
            }
        }
        match typed {
            Some((content_type, content_transfer_encoding)) => {
                self.stack.pop();
                self.stack.pop();
                self.validator.bodies.push(
                    BodyFilePtr { content_type, content_transfer_encoding, content: (start, end) },
                );
                assert(self@.stack =~= before.stack.take(n - 2));
            },
            None => {
                self.validator.bodies.push(
                    BodyFilePtr {
                        content_type: vstd::slice::slice_to_vec("text/plain".as_bytes()),
                        content_transfer_encoding: vstd::slice::slice_to_vec(
                            "quoted-printable".as_bytes(),
                        ),
                        content: (start, end),
                    },
                );
            },
        }
        assert(self@.draft.bodies =~= close_body(before, start, end).draft.bodies);
    }

    /// Ends the parse and hands the records over.
    pub fn finish(self) -> (emails: Vec<EmailFilePtr>)
        ensures
            email_views(emails@) == self@.emails,
    {
        self.emails
    }
}

/// Turns a token stream into the records of its messages.
///
/// A message whose draft is incomplete when it closes is dropped; only a malformed stream
/// fails the parse.
pub fn parse(tokens: &[Token]) -> (res: Result<Vec<EmailFilePtr>, MailboxError>)
    ensures
        match parse_spec(token_views(tokens@)) {
            Ok(emails) => res is Ok && email_views(res->Ok_0@) == emails,
            Err(e) => res == Err::<Vec<EmailFilePtr>, MailboxError>(e),
        },
{
    let mut parser = Parser::new();
    let mut i: usize = 0;
    while i < tokens.len()
        invariant
            i <= tokens.len(),
            parse_upto(token_views(tokens@), i as nat) == Some(parser@),
        decreases tokens.len() - i,
    {
        let token = &tokens[i];
        let date = match token {
            Token::Date(raw) => parse_date(raw.as_slice()),
            _ => None,
        };
        assert(token_views(tokens@)[i as int] == token@);
        match parser.accept(token, date) {
            Ok(()) => {},
            Err(e) => {
                proof {
                    lemma_parse_error_stays(token_views(tokens@), (i + 1) as nat, tokens@.len());
                }
                return Err(e);
            },
        }
        i += 1;
    }
    Ok(parser.finish())
}

/// Once a prefix of the stream is malformed, so is every longer prefix.
proof fn lemma_parse_error_stays(tokens: Seq<TokenView>, n: nat, m: nat)
    requires
        1 <= n <= m <= tokens.len(),
        parse_upto(tokens, n) is None,
    ensures
        parse_upto(tokens, m) is None,
    decreases m - n,
{
    if n < m {
        lemma_parse_error_stays(tokens, n, (m - 1) as nat);
    }
}

} // verus!
