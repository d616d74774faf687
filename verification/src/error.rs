//! Error types for the interpreter.
use vstd::prelude::*;

verus! {

broadcast use vstd::string::group_string_axioms;

/// Declares `std::io::Error` so that it can be carried by [`Error::Io`].
#[verifier::external_type_specification]
#[verifier::external_body]
pub struct ExIoError(std::io::Error);

/// All recoverable errors the interpreter can emit.
#[derive(Debug)]
pub enum Error {
    /// Syntax or semantic error during parsing.
    Parse {
        /// 1-based line number in the source file (0 for text parsed at run time).
        line: usize,
        /// Human-readable description.
        message: String,
        /// Optional column within the line.
        column: Option<usize>,
    },
    /// Execution step limit exceeded.
    FuelExceeded {
        /// Number of steps executed before hitting the limit.
        steps: u64,
    },
    /// Tape grew beyond the configured size limit.
    TapeOverflow {
        /// Current tape length in bytes.
        len: usize,
        /// Configured limit in bytes.
        limit: usize,
    },
    /// Underlying I/O failure (stdin/stdout/file operations).
    Io(std::io::Error),
}

/// The mathematical content of an [`Error`].
pub enum ErrorView {
    Parse { line: int, message: Seq<char>, column: Option<usize> },
    FuelExceeded { steps: u64 },
    TapeOverflow { len: int, limit: int },
    Io,
}

impl View for Error {
    type V = ErrorView;

    open spec fn view(&self) -> ErrorView {
        match self {
            Error::Parse { line, message, column } => ErrorView::Parse {
                line: *line as int,
                message: message@,
                column: *column,
            },
            Error::FuelExceeded { steps } => ErrorView::FuelExceeded { steps: *steps },
            Error::TapeOverflow { len, limit } => ErrorView::TapeOverflow {
                len: *len as int,
                limit: *limit as int,
            },
            Error::Io(_) => ErrorView::Io,
        }
    }
}

/// The parse error reported at `line` with text `message` and no column.
pub open spec fn parse_error(line: int, message: Seq<char>) -> ErrorView {
    ErrorView::Parse { line, message, column: None }
}

/// The view of a result whose error is an [`Error`].
pub open spec fn result_view<T: View>(r: Result<T, Error>) -> Result<T::V, ErrorView> {
    match r {
        Ok(v) => Ok(v@),
        Err(e) => Err(e@),
    }
}

/// Builds the parse error for `line` with the text of `message`.
pub fn parse_err(line: usize, message: &str) -> (e: Error)
    ensures
        e@ == parse_error(line as int, message@),
{
    Error::Parse { line, message: message.to_string(), column: None }
}

impl From<std::io::Error> for Error {
    fn from(e: std::io::Error) -> (r: Self) {
        Error::Io(e)
    }
}

impl vstd::std_specs::convert::FromSpecImpl<std::io::Error> for Error {
    open spec fn obeys_from_spec() -> bool {
        true
    }

    open spec fn from_spec(e: std::io::Error) -> Self {
        Error::Io(e)
    }
}

/// The character of the decimal digit `d`.
pub open spec fn digit_char(d: nat) -> char {
    (48 + d) as char
}

/// The decimal representation of `n`, without leading zeros.
pub open spec fn decimal(n: nat) -> Seq<char>
    decreases n,
{
    if n < 10 {
        seq![digit_char(n)]
    } else {
        decimal(n / 10).push(digit_char(n % 10))
    }
}

/// Appends the decimal representation of `n` to `out`.
pub fn push_decimal(out: &mut Vec<char>, n: u64)
    ensures
        final(out)@ == old(out)@ + decimal(n as nat),
    decreases n,
{
    if n >= 10 {
        push_decimal(out, n / 10);
    }
    let d = n % 10;
    let c = if d == 0 {
        '0'
    } else if d == 1 {
        '1'
    } else if d == 2 {
        '2'
    } else if d == 3 {
        '3'
    } else if d == 4 {
        '4'
    } else if d == 5 {
        '5'
    } else if d == 6 {
        '6'
    } else if d == 7 {
        '7'
    } else if d == 8 {
        '8'
    } else {
        '9'
    };
    proof {
        assert(c == digit_char((n % 10) as nat));
    }
    out.push(c);
    assert(out@ =~= old(out)@ + decimal(n as nat));
}

/// The human-readable text of an error, apart from the I/O case.
pub open spec fn error_message(e: ErrorView) -> Seq<char> {
    match e {
        ErrorView::Parse { line, message, column } => match column {
            Some(col) => "parse error at line "@ + decimal(line as nat) + ", column "@ + decimal(
                col as nat,
            ) + ": "@ + message,
            None => "parse error at line "@ + decimal(line as nat) + ": "@ + message,
        },
        ErrorView::FuelExceeded { steps } => "fuel exhausted after "@ + decimal(steps as nat)
            + " execution steps"@,
        ErrorView::TapeOverflow { len, limit } => "tape overflow: "@ + decimal(len as nat)
            + " bytes exceeds limit of "@ + decimal(limit as nat) + " bytes"@,
        ErrorView::Io => "I/O error: "@,
    }
}

fn push_text(out: &mut Vec<char>, t: &str)
    ensures
        final(out)@ == old(out)@ + t@,
{
    let v = crate::text::chars_of(t);
    crate::text::push_all(out, &v);
}

impl Error {
    /// The human-readable text of the error. For an I/O error it is
    /// `I/O error: ` followed by the text of the underlying error.
    pub fn message(&self) -> (m: String)
        ensures
            self@ is Io ==> m@.len() >= error_message(self@).len() && m@.take(
                error_message(self@).len() as int,
            ) == error_message(self@),
            !(self@ is Io) ==> m@ == error_message(self@),
    {
        let mut out: Vec<char> = Vec::new();
        match self {
            Error::Parse { line, message, column } => {
                push_text(&mut out, "parse error at line ");
                push_decimal(&mut out, *line as u64);
                match column {
                    Some(col) => {
                        push_text(&mut out, ", column ");
                        push_decimal(&mut out, *col as u64);
                    },
                    None => {},
                }
                push_text(&mut out, ": ");
                push_text(&mut out, message.as_str());
            },
            Error::FuelExceeded { steps } => {
                push_text(&mut out, "fuel exhausted after ");
                push_decimal(&mut out, *steps);
                push_text(&mut out, " execution steps");
            },
            Error::TapeOverflow { len, limit } => {
                push_text(&mut out, "tape overflow: ");
                push_decimal(&mut out, *len as u64);
                push_text(&mut out, " bytes exceeds limit of ");
                push_decimal(&mut out, *limit as u64);
                push_text(&mut out, " bytes");
            },
            Error::Io(e) => {
                push_text(&mut out, "I/O error: ");
                let t = e.to_string();
                push_text(&mut out, t.as_str());
            },
        }
        assert(out@.take(error_message(self@).len() as int) =~= error_message(self@) || !(self@ is Io));
        crate::text::string_of(&out)
    }
}

} // verus!
