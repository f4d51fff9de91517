use vstd::prelude::*;
use crate::mailbox::{Email, Message};

pub mod bytes;
pub mod decode;
pub mod file;
pub mod lexer;
pub mod parser;
pub mod records;
pub mod stream;

verus! {

/// Everything that can go wrong while loading an archive or resolving a message.
#[derive(Debug, Clone, Copy, PartialEq, Eq, Structural)]
pub enum MailboxError {
    MboxFileNotFound,
    MboxParseError,
    MboxValidationError,
    EmailNotFound,
    DecodeQuotedPrintableError,
    UTF8EncodeError,
    EncodedWordDecodeError,
}

impl MailboxError {
    /// The variant's name, as text.
    pub open spec fn name(self) -> Seq<char> {
        match self {
            MailboxError::MboxFileNotFound => "MboxFileNotFound"@,
            MailboxError::MboxParseError => "MboxParseError"@,
            MailboxError::MboxValidationError => "MboxValidationError"@,
            MailboxError::EmailNotFound => "EmailNotFound"@,
            MailboxError::DecodeQuotedPrintableError => "DecodeQuotedPrintableError"@,
            MailboxError::UTF8EncodeError => "UTF8EncodeError"@,
            MailboxError::EncodedWordDecodeError => "EncodedWordDecodeError"@,
        }
    }

    /// Renders the error as the name of its variant.
    pub fn to_string(&self) -> (text: String)
        ensures
            text@ == self.name(),
    {
        match self {
            MailboxError::MboxFileNotFound => "MboxFileNotFound".to_owned(),
            MailboxError::MboxParseError => "MboxParseError".to_owned(),
            MailboxError::MboxValidationError => "MboxValidationError".to_owned(),
            MailboxError::EmailNotFound => "EmailNotFound".to_owned(),
            MailboxError::DecodeQuotedPrintableError => "DecodeQuotedPrintableError".to_owned(),
            MailboxError::UTF8EncodeError => "UTF8EncodeError".to_owned(),
            MailboxError::EncodedWordDecodeError => "EncodedWordDecodeError".to_owned(),
        }
    }
}

/// The value of what resolving a message gives.
pub open spec fn message_outcome<EmailId>(res: Result<Email<EmailId>, MailboxError>) -> Result<
    Message<EmailId>,
    MailboxError,
> {
    match res {
        Ok(email) => Ok(email@),
        Err(e) => Err(e),
    }
}

/// A store of messages that resolves them by identifier.
pub trait MailStorageRepository {
    type EmailId;

    /// The number of messages held.
    spec fn count(&self) -> nat;

    /// What resolving the identifier `id` gives.
    spec fn resolve(&self, id: Self::EmailId) -> Result<Message<Self::EmailId>, MailboxError>;

    /// Resolves the message with the identifier `id`; the message carries that identifier.
    fn get_email(&self, id: &Self::EmailId) -> (res: Result<Email<Self::EmailId>, MailboxError>)
        ensures
            message_outcome(res) == self.resolve(*id),
            res is Ok ==> res->Ok_0.id == *id,
    ;

    /// The number of messages held.
    fn count_emails(&self) -> (res: Result<usize, MailboxError>)
        ensures
            res is Ok ==> res->Ok_0 == self.count(),
    ;
}

} // verus!
