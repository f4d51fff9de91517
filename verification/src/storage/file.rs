use vstd::prelude::*;
use vstd::slice::slice_subrange;
use vstd::utf8::{decode_utf8, valid_utf8};
use crate::mailbox::{text_view, Email, Message};
use crate::storage::decode::{
    decode_encoded_words, decode_quoted_printable, quoted_printable_decoded, remove_line_feeds,
    rfc2047_decoded, string_from_utf8, without_line_feeds,
};
use crate::storage::lexer::lex;
use crate::storage::parser::{
    email_views, parse, BodyFilePtr, BodyView, EmailFilePtr, EmailView, SeekRange,
};
use crate::storage::records::{
    all_well_formed, lemma_loaded_records_well_formed, load_spec, within,
};
use crate::storage::{message_outcome, MailStorageRepository, MailboxError};

verus! {

/// The text of a header whose value the decoder has been through: without its line feeds
/// where the decoder gave a text, an error where it gave up.
pub open spec fn header_outcome(decoded: Option<Seq<char>>) -> Result<Seq<char>, MailboxError> {
    match decoded {
        Some(text) => Ok(without_line_feeds(text)),
        None => Err(MailboxError::EncodedWordDecodeError),
    }
}

/// The text of a body whose content the decoder has been through: its characters where the
/// decoder gave bytes that are valid UTF-8, an error otherwise.
pub open spec fn body_outcome(decoded: Option<Seq<u8>>) -> Result<Seq<char>, MailboxError> {
    match decoded {
        Some(bytes) => if valid_utf8(bytes) {
            Ok(decode_utf8(bytes))
        } else {
            Err(MailboxError::UTF8EncodeError)
        },
        None => Err(MailboxError::DecodeQuotedPrintableError),
    }
}

/// The bytes of `source` that `range` covers.
pub open spec fn slice_of(source: Seq<u8>, range: SeekRange) -> Seq<u8> {
    source.subrange(range.0 as int, range.1 as int)
}

/// The decoded text of the header that lies at `range`.
pub open spec fn header_text(source: Seq<u8>, range: SeekRange) -> Result<Seq<char>, MailboxError> {
    header_outcome(rfc2047_decoded(slice_of(source, range)))
}

/// The decoded text of the body that lies at `range`.
pub open spec fn body_text(source: Seq<u8>, range: SeekRange) -> Result<Seq<char>, MailboxError> {
    body_outcome(quoted_printable_decoded(slice_of(source, range)))
}

/// Index of the first body at or after `from` that is HTML, or is not, as `html` says; the
/// number of bodies when there is none.
pub open spec fn first_body(bodies: Seq<BodyView>, html: bool, from: int) -> int
    decreases bodies.len() - from,
{
    if from < 0 || from >= bodies.len() {
        bodies.len() as int
    } else if bodies[from].is_html() == html {
        from
    } else {
        first_body(bodies, html, from + 1)
    }
}

/// The text of the first body of the wanted kind; `None` where there is no such body or
/// where it does not decode.
pub open spec fn resolved_body(source: Seq<u8>, bodies: Seq<BodyView>, html: bool) -> Option<
    Seq<char>,
> {
    let at = first_body(bodies, html, 0);
    if at >= bodies.len() {
        None
    } else {
        match body_text(source, bodies[at].content) {
            Ok(text) => Some(text),
            Err(_) => None,
        }
    }
}

/// The message that a record stands for in `source`, under the identifier `id`, or the
/// decoding error of its sender or subject.
pub open spec fn resolved(source: Seq<u8>, record: EmailView, id: usize) -> Result<
    Message<usize>,
    MailboxError,
> {
    match (header_text(source, record.from), header_text(source, record.subject)) {
        (Ok(from), Ok(subject)) => Ok(
            Message {
                id,
                from,
                datetime: record.datetime,
                subject,
                body_text: resolved_body(source, record.bodies, false),
                body_html: resolved_body(source, record.bodies, true),
            },
        ),
        _ => Err(MailboxError::EncodedWordDecodeError),
    }
}

/// The value of what decoding a text gives.
pub open spec fn text_outcome(res: Result<String, MailboxError>) -> Result<Seq<char>, MailboxError> {
    match res {
        Ok(text) => Ok(text@),
        Err(e) => Err(e),
    }
}

/// What the header decoder's answer stands for, as an option.
pub open spec fn decoded_header(decoded: Result<String, rfc2047_decoder::Error>) -> Option<
    Seq<char>,
> {
    match decoded {
        Ok(text) => Some(text@),
        Err(_) => None,
    }
}

/// What the body decoder's answer stands for, as an option.
pub open spec fn decoded_body(
    decoded: Result<Vec<u8>, quoted_printable::QuotedPrintableError>,
) -> Option<Seq<u8>> {
    match decoded {
        Ok(bytes) => Some(bytes@),
        Err(_) => None,
    }
}

/// Makes a header's text of the decoder's answer: line feeds go, a failure becomes an
/// encoded-word error.
pub fn header_from_decoded(decoded: Result<String, rfc2047_decoder::Error>) -> (res: Result<
    String,
    MailboxError,
>)
    ensures
        text_outcome(res) == header_outcome(decoded_header(decoded)),
{
    match decoded {
        Ok(text) => Ok(remove_line_feeds(text.as_str())),
        Err(_) => Err(MailboxError::EncodedWordDecodeError),
    }
}

/// Makes a body's text of the decoder's answer: the bytes must be UTF-8, and a failure of
/// the decoder becomes a quoted-printable error.
pub fn body_from_decoded(
    decoded: Result<Vec<u8>, quoted_printable::QuotedPrintableError>,
) -> (res: Result<String, MailboxError>)
    ensures
        text_outcome(res) == body_outcome(decoded_body(decoded)),
{
    match decoded {
        Ok(bytes) => match string_from_utf8(bytes) {
            Some(text) => Ok(text),
            None => Err(MailboxError::UTF8EncodeError),
        },
        Err(_) => Err(MailboxError::DecodeQuotedPrintableError),
    }
}

/// An archive held in memory: the bytes of the source and the records of its messages.
/// A message's identifier is its position among the records.
pub struct MboxFile {
    emails: Vec<EmailFilePtr>,
    data: Vec<u8>,
}

impl MboxFile {
    #[verifier::type_invariant]
    spec fn fits(self) -> bool {
        all_well_formed(email_views(self.emails@), self.data@.len())
    }

    /// The records of the archive, in the order of the source.
    pub closed spec fn records(&self) -> Seq<EmailView> {
        email_views(self.emails@)
    }

    /// The bytes of the archive.
    pub closed spec fn source(&self) -> Seq<u8> {
        self.data@
    }

    /// Loads an archive from the bytes of its source. A malformed token stream fails the
    /// load; every record of a loaded archive is well formed for its source.
    pub fn new(data: Vec<u8>) -> (res: Result<MboxFile, MailboxError>)
        ensures
            match load_spec(data@) {
                Ok(records) => res is Ok && res->Ok_0.records() == records && res->Ok_0.source()
                    == data@,
                Err(e) => res is Err && res->Err_0 == e,
            },
            res is Ok ==> all_well_formed(res->Ok_0.records(), data@.len()),
    {
        assert(data.len() <= u64::MAX);
        let tokens = lex(data.as_slice());
        let parsed = parse(tokens.as_slice());
        proof {
            lemma_loaded_records_well_formed(data@);
        }
        match parsed {
            Ok(emails) => Ok(MboxFile { emails, data }),
            Err(e) => Err(e),
        }
    }

    /// Decodes the header that lies at `range`.
    fn get_header(&self, range: &SeekRange) -> (res: Result<String, MailboxError>)
        requires
            range.0 <= range.1 <= self.source().len(),
        ensures
            text_outcome(res) == header_text(self.source(), *range),
    {
        let data = self.data.as_slice();
        assert(range.1 <= data.len());
        let bytes = slice_subrange(data, range.0 as usize, range.1 as usize);
        header_from_decoded(decode_encoded_words(bytes))
    }

    /// Decodes the body that `body_ptr` points at.
    fn get_body(&self, body_ptr: &BodyFilePtr) -> (res: Result<String, MailboxError>)
        requires
            body_ptr.content.0 <= body_ptr.content.1 <= self.source().len(),
        ensures
            text_outcome(res) == body_text(self.source(), body_ptr.content),
    {
        let data = self.data.as_slice();
        assert(body_ptr.content.1 <= data.len());
        let bytes = slice_subrange(
            data,
            body_ptr.content.0 as usize,
            body_ptr.content.1 as usize,
        );
        body_from_decoded(decode_quoted_printable(bytes))
    }

    /// Resolves the first body of the wanted kind.
    fn get_first_body(&self, email_ptr: &EmailFilePtr, html: bool) -> (res: Option<String>)
        requires
            email_ptr@.well_formed(self.source().len()),
        ensures
            text_view(res) == resolved_body(self.source(), email_ptr@.bodies, html),
    {
        let mut at: usize = 0;
        while at < email_ptr.bodies.len()
            invariant
                at <= email_ptr.bodies.len(),
                first_body(email_ptr@.bodies, html, 0) == first_body(
                    email_ptr@.bodies,
                    html,
                    at as int,
                ),
                email_ptr@.well_formed(self.source().len()),
            decreases email_ptr.bodies.len() - at,
        {
            let body_ptr = &email_ptr.bodies[at];
            assert(email_ptr@.bodies[at as int] == body_ptr@);
            if body_ptr.is_html() == html {
                assert(within(email_ptr@.bodies[at as int].content, email_ptr@.email));
                return match self.get_body(body_ptr) {
                    Ok(text) => Some(text),
                    Err(_) => None,
                };
            }
            at += 1;
        }
        None
    }

    /// A walk over the messages of the archive, from the first record on.
    pub fn emails(&self) -> (walk: EmailIterator<'_>)
        ensures
            walk.idx == 0,
            walk.mbox == self,
    {
        EmailIterator { idx: 0, mbox: self }
    }
}

impl MailStorageRepository for MboxFile {
    type EmailId = usize;

    open spec fn count(&self) -> nat {
        self.records().len()
    }

    /// What resolving the identifier `id` gives: the message at that position, an error
    /// where its sender or subject does not decode, and `EmailNotFound` beyond the records.
    open spec fn resolve(&self, id: usize) -> Result<Message<usize>, MailboxError> {
        if id < self.records().len() {
            resolved(self.source(), self.records()[id as int], id)
        } else {
            Err(MailboxError::EmailNotFound)
        }
    }

    /// Resolves the message with the identifier `id`.
    ///
    /// An identifier beyond the records gives `EmailNotFound`. A sender or subject that does
    /// not decode fails the call; a body that does not decode is left out.
    fn get_email(&self, id: &usize) -> (res: Result<Email<usize>, MailboxError>)
        ensures
            message_outcome(res) == self.resolve(*id),
            res is Ok ==> res->Ok_0.id == *id,
    {
        proof {
            use_type_invariant(self);
        }
        if *id >= self.emails.len() {
            return Err(MailboxError::EmailNotFound);
        }
        let email_ptr = &self.emails[*id];
        assert(self.records()[*id as int] == email_ptr@);
        assert(email_ptr@.well_formed(self.source().len()));
        let from = match self.get_header(&email_ptr.from) {
            Ok(text) => text,
            Err(_) => {
                return Err(MailboxError::EncodedWordDecodeError);
            },
        };
        let subject = match self.get_header(&email_ptr.subject) {
            Ok(text) => text,
            Err(_) => {
                return Err(MailboxError::EncodedWordDecodeError);
            },
        };
        let body_text = self.get_first_body(email_ptr, false);
        let body_html = self.get_first_body(email_ptr, true);
        Ok(Email { id: *id, from, datetime: email_ptr.datetime, subject, body_text, body_html })
    }

    /// The number of messages in the archive.
    fn count_emails(&self) -> (res: Result<usize, MailboxError>)
        ensures
            res == Ok::<usize, MailboxError>(self.records().len() as usize),
            self.records().len() <= usize::MAX,
    {
        Ok(self.emails.len())
    }
}

/// Index of the first record at or after `from` that resolves, or the number of records when
/// there is none.
pub open spec fn next_resolvable(mbox: &MboxFile, from: int) -> int
    decreases mbox.records().len() - from,
{
    if from < 0 || from >= mbox.records().len() {
        mbox.records().len() as int
    } else if mbox.resolve(from as usize) is Ok {
        from
    } else {
        next_resolvable(mbox, from + 1)
    }
}

/// A walk over the messages of an archive in the order of its records. A record that does
/// not resolve is passed over.
pub struct EmailIterator<'a> {
    pub idx: usize,
    pub mbox: &'a MboxFile,
}

impl<'a> EmailIterator<'a> {
    /// The next message that resolves, or `None` when the records are exhausted.
    pub fn next(&mut self) -> (res: Option<Email<usize>>)
        ensures
            final(self).mbox == old(self).mbox,
            ({
                let at = next_resolvable(old(self).mbox, old(self).idx as int);
                if at < old(self).mbox.records().len() {
                    &&& res is Some
                    &&& Ok::<Message<usize>, MailboxError>(res->0@) == old(self).mbox.resolve(
                        at as usize,
                    )
                    &&& final(self).idx == at + 1
                } else {
                    &&& res is None
                    &&& final(self).idx == if old(self).idx <= at {
                        at as usize
                    } else {
                        old(self).idx
                    }
                }
            }),
    {
        let count = match self.mbox.count_emails() {
            Ok(count) => count,
            Err(_) => 0,
        };
        while self.idx < count
            invariant
                count == self.mbox.records().len(),
                self.mbox == old(self).mbox,
                old(self).idx <= self.idx,
                self.idx <= count || self.idx == old(self).idx,
                next_resolvable(old(self).mbox, old(self).idx as int) == next_resolvable(
                    self.mbox,
                    self.idx as int,
                ),
            decreases count - self.idx,
        {
            let found = self.mbox.get_email(&self.idx);
            self.idx += 1;
            match found {
                Ok(email) => {
                    return Some(email);
                },
                Err(_) => {},
            }
        }
        None
    }
}

} // verus!
