use vstd::prelude::*;

verus! {

#[verifier::external_type_specification]
#[verifier::external_body]
pub struct ExIoError(std::io::Error);

/// The errors of building and reading a transducer.
#[derive(Debug)]
pub enum FstError {
    UnexpectIO(String, std::io::Error),
    Unexpected(String),
    Eof,
    Fail,
    NotFound,
    Greater,
    EncodeFail(String),
    IoWriteFail(std::io::Error),
}

pub type FstResult<T> = Result<T, FstError>;

impl From<String> for FstError {
    fn from(e: String) -> (r: Self) {
        FstError::Unexpected(e)
    }
}

impl vstd::std_specs::convert::FromSpecImpl<String> for FstError {
    open spec fn obeys_from_spec() -> bool {
        true
    }

    open spec fn from_spec(e: String) -> Self {
        FstError::Unexpected(e)
    }
}

/// A message becomes an unexpected-condition error that carries its text.
impl<'a> From<&'a str> for FstError {
    fn from(e: &'a str) -> (r: Self)
        ensures
            r matches FstError::Unexpected(m) && m@ == e@,
    {
        let m = e.to_string();
        proof {
            broadcast use vstd::string::to_string_from_display_ensures_for_str;
        }
        FstError::Unexpected(m)
    }
}

/// A `String` is not fixed by its characters in the logic, so `from_spec` cannot
/// name the converted error; the contract of `from` above states it instead.
impl<'a> vstd::std_specs::convert::FromSpecImpl<&'a str> for FstError {
    open spec fn obeys_from_spec() -> bool {
        false
    }

    open spec fn from_spec(e: &'a str) -> Self {
        FstError::Unexpected(choose|m: String| m@ == e@)
    }
}

/// A message with the I/O error behind it becomes an error that carries both.
impl<'a> From<(&'a str, std::io::Error)> for FstError {
    fn from(e: (&'a str, std::io::Error)) -> (r: Self)
        ensures
            r matches FstError::UnexpectIO(m, err) && m@ == e.0@ && err == e.1,
    {
        let m = e.0.to_string();
        proof {
            broadcast use vstd::string::to_string_from_display_ensures_for_str;
        }
        FstError::UnexpectIO(m, e.1)
    }
}

/// As for a bare message, `from` itself states the converted error.
impl<'a> vstd::std_specs::convert::FromSpecImpl<(&'a str, std::io::Error)> for FstError {
    open spec fn obeys_from_spec() -> bool {
        false
    }

    open spec fn from_spec(e: (&'a str, std::io::Error)) -> Self {
        let text = e.0;
        FstError::UnexpectIO(choose|m: String| m@ == text@, e.1)
    }
}

/// The kinds of failure of reading a transducer back.
pub enum ReadErr {
    /// The bytes ran out.
    Eof,
    /// No arc carries the input.
    NotFound,
    /// The arcs passed the input without meeting it.
    Greater,
}

/// The message of the end-of-input error that reading reports.
pub open spec fn eof_message() -> Seq<char> {
    "unexpected end of file"@
}

/// `e` is the error that stands for the failure `k`.
pub open spec fn is_read_err(e: FstError, k: ReadErr) -> bool {
    match k {
        ReadErr::Eof => e matches FstError::Unexpected(m) && m@ == eof_message(),
        ReadErr::NotFound => e is NotFound,
        ReadErr::Greater => e is Greater,
    }
}

/// The error reported when the bytes run out.
pub fn eof_error() -> (e: FstError)
    ensures
        is_read_err(e, ReadErr::Eof),
{
    let m = "unexpected end of file".to_string();
    proof {
        reveal_strlit("unexpected end of file");
        broadcast use vstd::string::to_string_from_display_ensures_for_str;
    }
    FstError::Unexpected(m)
}

} // verus!
