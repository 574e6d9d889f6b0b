//! The error kinds that index and orchestration operations report.

use vstd::prelude::*;
use vstd::string::*;

verus! {

/// What went wrong when a search pattern could not be compiled.
#[derive(Debug)]
pub enum PatternProblem {
    /// The pattern text is not a valid expression.
    Syntax,
    /// The compiled pattern exceeded the size limit.
    CompiledTooBig,
    /// Any other pattern failure.
    Other,
}

/// Every failure the library reports.
#[derive(Debug)]
pub enum Error {
    /// The command line asked for an impossible combination.
    InvalidArguments,
    /// The persisted index or settings text is malformed; the payload is
    /// the one-based line and column of the first offending character.
    InvalidJSON(usize, usize),
    /// A search pattern could not be compiled.
    InvalidRegex(PatternProblem),
    /// A named file or version is missing; the payload names it.
    MissingTarget(String),
    /// A key predicate matched no entry at all.
    MissingTargetPredicate,
    /// An underlying failure with no better description.
    Unknown,
}


/// The decimal digits of a number, most significant first.
pub open spec fn decimal_digits(n: nat) -> Seq<char>
    decreases n,
{
    if n < 10 {
        seq![(48 + n) as char]
    } else {
        decimal_digits(n / 10) + seq![(48 + n % 10) as char]
    }
}

/// The description of each error kind.
pub open spec fn error_description(e: Error) -> Seq<char> {
    match e {
        Error::InvalidArguments => "invalid arguments"@,
        Error::InvalidJSON(line, column) => "syntax error on line "@ + decimal_digits(line as nat)
            + ", column "@ + decimal_digits(column as nat)
            + ", of settings.json or cache.json"@,
        Error::InvalidRegex(problem) => match problem {
            PatternProblem::Syntax => "syntax error in regular expression"@,
            PatternProblem::CompiledTooBig => "oversized regular expression"@,
            PatternProblem::Other => "invalid regular expression"@,
        },
        Error::MissingTarget(target) => "could not locate '"@ + target@ + "'"@,
        Error::MissingTargetPredicate => "could not locate any target satisfying given conditions"@,
        Error::Unknown => "unknown"@,
    }
}

/// The one line a failing run prints.
pub open spec fn error_line(e: Error) -> Seq<char> {
    "trash: error: "@ + error_description(e) + "!"@
}

/// Writes the decimal digits of `n` onto the output.
fn push_decimal(out: &mut Vec<char>, n: usize)
    ensures
        final(out)@ == old(out)@ + decimal_digits(n as nat),
    decreases n,
{
    if n < 10 {
        let d: u8 = 48 + (n as u8);
        out.push(d as char);
        proof {
            assert(out@ =~= old(out)@ + decimal_digits(n as nat));
        }
    } else {
        push_decimal(out, n / 10);
        let d: u8 = 48 + ((n % 10) as u8);
        out.push(d as char);
        proof {
            assert(out@ =~= old(out)@ + decimal_digits(n as nat));
        }
    }
}

/// A number as decimal text.
fn decimal_string(n: usize) -> (r: String)
    ensures
        r@ == decimal_digits(n as nat),
{
    let mut out: Vec<char> = Vec::new();
    push_decimal(&mut out, n);
    proof {
        assert(out@ =~= decimal_digits(n as nat));
    }
    crate::json::chars_to_string(&out)
}

impl Error {
    /// The one line this error prints, in the form
    /// `trash: error: <description>!`.
    pub fn print(&self) -> (r: String)
        ensures
            r@ == error_line(*self),
    {
        let mut r = String::from_str("trash: error: ");
        match self {
            Error::InvalidArguments => {
                r.append("invalid arguments");
            },
            Error::InvalidJSON(line, column) => {
                r.append("syntax error on line ");
                let l = decimal_string(*line);
                r.append(l.as_str());
                r.append(", column ");
                let c = decimal_string(*column);
                r.append(c.as_str());
                r.append(", of settings.json or cache.json");
            },
            Error::InvalidRegex(problem) => {
                match problem {
                    PatternProblem::Syntax => {
                        r.append("syntax error in regular expression");
                    },
                    PatternProblem::CompiledTooBig => {
                        r.append("oversized regular expression");
                    },
                    PatternProblem::Other => {
                        r.append("invalid regular expression");
                    },
                }
            },
            Error::MissingTarget(target) => {
                r.append("could not locate '");
                r.append(target.as_str());
                r.append("'");
            },
            Error::MissingTargetPredicate => {
                r.append("could not locate any target satisfying given conditions");
            },
            Error::Unknown => {
                r.append("unknown");
            },
        }
        r.append("!");
        proof {
            assert(r@ =~= error_line(*self));
        }
        r
    }
}

} // verus!
