//! What makes the server give up.
use std::io;
use vstd::prelude::*;

verus! {

/// An error of the operating system.
#[verifier::external_type_specification]
#[verifier::external_body]
pub struct ExIoError(std::io::Error);

/// What makes the server give up.
#[derive(Debug)]
pub enum Error {
    /// The network failed.
    Network(io::Error),
    /// The input devices failed.
    Input(io::Error),
    /// A device does not take in the events that are handed back to it.
    Overflow,
    /// The configuration makes no sense.
    Config(&'static str),
}

impl Error {
    /// What the error says, of whose cause the operating system says `cause`.
    pub open spec fn text(self, cause: Seq<char>) -> Seq<char> {
        match self {
            Error::Network(_) => "Network error: "@ + cause,
            Error::Input(_) => "Input error: "@ + cause,
            Error::Overflow => "Event queue overflow"@,
            Error::Config(problem) => "Config error: "@ + problem@,
        }
    }

    /// What the error says, of whose cause the operating system says `cause`.
    pub fn describe(&self, cause: &str) -> (r: String)
        ensures
            r@ == self.text(cause@),
    {
        match self {
            Error::Network(_) => "Network error: ".to_owned().concat(cause),
            Error::Input(_) => "Input error: ".to_owned().concat(cause),
            Error::Overflow => "Event queue overflow".to_owned(),
            Error::Config(problem) => "Config error: ".to_owned().concat(problem),
        }
    }

    /// What the error says.
    pub fn message(&self) -> (r: String)
        ensures
            exists|cause: Seq<char>| r@ == #[trigger] self.text(cause),
    {
        let cause = match self {
            Error::Network(err) => io_text(err),
            Error::Input(err) => io_text(err),
            _ => "".to_owned(),
        };
        self.describe(cause.as_str())
    }
}

/// What `std::io::Error` says of itself, by its `Display`. The operating system words it, so
/// nothing is claimed of the text.
#[verifier::external_body]
fn io_text(err: &io::Error) -> (r: String) {
    format!("{}", err)
}

/// Whether an error is of the kind that `std::io::Error::kind` calls a broken pipe.
pub uninterp spec fn is_broken_pipe(err: io::Error) -> bool;

/// `std::io::Error::kind`, held against the kind of a broken pipe. An error is of one kind, and
/// stays so.
#[verifier::external_body]
pub(crate) fn broken_pipe(err: &io::Error) -> (r: bool)
    ensures
        r == is_broken_pipe(*err),
{
    err.kind() == io::ErrorKind::BrokenPipe
}

/// Each error says what failed, and those of the operating system say why in its words.
pub proof fn law_errors_say_what_failed(err: io::Error, problem: &'static str, cause: Seq<char>)
    ensures
        Error::Network(err).text(cause) == "Network error: "@ + cause,
        Error::Input(err).text(cause) == "Input error: "@ + cause,
        Error::Overflow.text(cause) == "Event queue overflow"@,
        Error::Config(problem).text(cause) == "Config error: "@ + problem@,
{
}

} // verus!
