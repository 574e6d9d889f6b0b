//! A small reporter that prefixes failures with the application's name.

use vstd::prelude::*;
use vstd::string::*;

verus! {

/// A reporter named after the application it speaks for.
pub struct Logger {
    application_name: String,
}

/// The failures the reporter knows how to describe.
#[derive(Debug)]
pub enum Error {
    /// The command line could not be understood.
    InvalidCommandLine,
    /// A file named on the command line is missing; the payload names it.
    MissingTargetFile(String),
}

/// The description of a reporter failure.
pub open spec fn logger_message(e: Error) -> Seq<char> {
    match e {
        Error::InvalidCommandLine => "invalid command line"@,
        Error::MissingTargetFile(path) => "missing target file '"@ + path@ + "'"@,
    }
}

impl Error {
    /// The failure as text.
    pub fn to_string(&self) -> (r: String)
        ensures
            r@ == logger_message(*self),
    {
        match self {
            Error::InvalidCommandLine => String::from_str("invalid command line"),
            Error::MissingTargetFile(path) => {
                let mut r = String::from_str("missing target file '");
                r.append(path.as_str());
                r.append("'");
                proof {
                    assert(r@ =~= logger_message(*self));
                }
                r
            },
        }
    }
}

impl View for Logger {
    type V = Seq<char>;

    closed spec fn view(&self) -> Seq<char> {
        self.application_name@
    }
}

impl Logger {
    pub fn new(application_name: String) -> (r: Logger)
        ensures
            r@ == application_name@,
    {
        Logger { application_name }
    }

    /// The full line that reports a failure: the application's name, the
    /// word `error`, and the description.
    pub fn error(&self, e: &Error) -> (r: String)
        ensures
            r@ == self@ + ": error: "@ + logger_message(*e) + "!"@,
    {
        let mut r = self.application_name.clone();
        r.append(": error: ");
        let m = e.to_string();
        r.append(m.as_str());
        r.append("!");
        proof {
            assert(r@ =~= self@ + ": error: "@ + logger_message(*e) + "!"@);
        }
        r
    }
}

} // verus!
