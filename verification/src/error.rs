//! The ways an operation of the database can fail.
use vstd::prelude::*;

verus! {

/// Why an operation was refused.
#[derive(Debug)]
pub enum Error {
    /// Stored bytes do not follow the file format; the text says what is wrong.
    Corrupt(&'static str),
    /// The caller asked for something the database cannot do.
    InvalidInput(String),
    /// The transaction has already been committed or rolled back.
    TransactionClosed,
}

/// The result of an operation that can fail with an [`Error`].
pub type Result<T> = core::result::Result<T, Error>;

impl Error {
    /// Whether this is `InvalidInput` with the given text.
    pub open spec fn is_invalid_input(self, text: Seq<char>) -> bool {
        self matches Error::InvalidInput(message) && message@ == text
    }

    /// The text shown to a user.
    pub open spec fn text(self) -> Seq<char> {
        match self {
            Error::Corrupt(message) => "corrupt Kestrel database: "@ + message@,
            Error::InvalidInput(message) => "invalid input: "@ + message@,
            Error::TransactionClosed => "transaction is already closed"@,
        }
    }

    /// Renders the error as one line of text.
    pub fn message(&self) -> (text: String)
        ensures
            text@ == self.text(),
    {
        match self {
            Error::Corrupt(message) => {
                let mut text = "corrupt Kestrel database: ".to_owned();
                text.append(message);
                text
            },
            Error::InvalidInput(message) => {
                let mut text = "invalid input: ".to_owned();
                text.append(message.as_str());
                text
            },
            Error::TransactionClosed => "transaction is already closed".to_owned(),
        }
    }
}

/// Builds an `InvalidInput` error that carries `text`.
pub fn invalid_input(text: &str) -> (error: Error)
    ensures
        error.is_invalid_input(text@),
{
    Error::InvalidInput(text.to_owned())
}

} // verus!
