use vstd::prelude::*;

verus! {

/// The class of a failure, which decides the HTTP status it is answered with.
#[derive(Clone, Copy, Debug, PartialEq, Eq, Structural)]
pub enum ErrorKind {
    BadRequest,
    NotFound,
    Internal,
}

/// The HTTP status an error of `kind` is answered with.
pub open spec fn spec_status(kind: ErrorKind) -> u16 {
    match kind {
        ErrorKind::BadRequest => 400,
        ErrorKind::NotFound => 404,
        ErrorKind::Internal => 500,
    }
}

/// The code an error of `kind` carries in its answer.
pub open spec fn spec_code(kind: ErrorKind) -> Seq<char> {
    match kind {
        ErrorKind::BadRequest => "BAD_REQUEST"@,
        ErrorKind::NotFound => "NOT_FOUND"@,
        ErrorKind::Internal => "INTERNAL"@,
    }
}

impl ErrorKind {
    /// The HTTP status of this kind of error.
    pub fn status(&self) -> (s: u16)
        ensures
            s == spec_status(*self),
    {
        match self {
            ErrorKind::BadRequest => 400,
            ErrorKind::NotFound => 404,
            ErrorKind::Internal => 500,
        }
    }

    /// The code of this kind of error, as the answer's `error.code` shows it.
    pub fn code(&self) -> (c: &'static str)
        ensures
            c@ == spec_code(*self),
    {
        match self {
            ErrorKind::BadRequest => "BAD_REQUEST",
            ErrorKind::NotFound => "NOT_FOUND",
            ErrorKind::Internal => "INTERNAL",
        }
    }
}

/// An error of the service, with the message shown to the client.
#[derive(Debug)]
pub enum AppError {
    BadRequest(String),
    NotFound(String),
    Internal(String),
}

pub type AppResult<T> = Result<T, AppError>;

impl View for AppError {
    type V = (ErrorKind, Seq<char>);

    open spec fn view(&self) -> (ErrorKind, Seq<char>) {
        match self {
            AppError::BadRequest(m) => (ErrorKind::BadRequest, m@),
            AppError::NotFound(m) => (ErrorKind::NotFound, m@),
            AppError::Internal(m) => (ErrorKind::Internal, m@),
        }
    }
}

impl AppError {
    /// The message of the error, which is also its display text.
    pub fn message(&self) -> (m: String)
        ensures
            m@ == self@.1,
    {
        match self {
            AppError::BadRequest(m) => m.clone(),
            AppError::NotFound(m) => m.clone(),
            AppError::Internal(m) => m.clone(),
        }
    }

    /// The kind of the error.
    pub fn kind(&self) -> (k: ErrorKind)
        ensures
            k == self@.0,
    {
        match self {
            AppError::BadRequest(_) => ErrorKind::BadRequest,
            AppError::NotFound(_) => ErrorKind::NotFound,
            AppError::Internal(_) => ErrorKind::Internal,
        }
    }
}

/// A bad-request error whose message is `prefix` followed by `detail`.
pub fn bad_request(prefix: &str, detail: &Vec<char>) -> (e: AppError)
    ensures
        e@ == (ErrorKind::BadRequest, prefix@ + detail@),
{
    let mut m = crate::text::chars_of(prefix);
    crate::text::append(&mut m, detail);
    AppError::BadRequest(crate::text::string_of(&m))
}

/// A bad-request error with the message `message`.
pub fn bad_request_msg(message: &str) -> (e: AppError)
    ensures
        e@ == (ErrorKind::BadRequest, message@),
{
    AppError::BadRequest(message.to_string())
}

} // verus!
