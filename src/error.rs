//! Error codes and the error type shared by every operation of the library.

use vstd::prelude::*;

use crate::text::{decimal, to_decimal};

verus! {

/// The category of an error, which tells the caller how to react to it.
#[derive(Clone, Copy, Debug, PartialEq, Eq, Structural)]
pub enum Code {
    /// The request does not make sense (e.g. it does not match the schema).
    BadRequest,
    /// Another transaction has reserved the resource: retry the transaction.
    Conflict,
    /// The caller is known but not allowed to do this.
    Forbidden,
    /// Something that should have worked did not: a bug.
    Internal,
    /// The resource exists but does not support this request method.
    MethodNotAllowed,
    /// The resource could not be found.
    NotFound,
    /// The feature is not implemented yet.
    NotImplemented,
    /// The request payload is too large.
    RequestTooLarge,
    /// The request requires credentials that are absent or invalid.
    Unauthorized,
}

impl Code {
    /// The description of this code.
    pub fn as_str(&self) -> (r: &'static str)
        ensures
            r@ == code_text(*self),
    {
        match self {
            Code::BadRequest => "Bad request",
            Code::Conflict => "Conflict",
            Code::Forbidden => "Forbidden",
            Code::Internal => "Internal server error",
            Code::MethodNotAllowed => "Method not allowed",
            Code::NotFound => "Not found",
            Code::NotImplemented => "Not implemented",
            Code::RequestTooLarge => "Request too large",
            Code::Unauthorized => "Unauthorized",
        }
    }
}

/// The description of a code.
pub open spec fn code_text(code: Code) -> Seq<char> {
    match code {
        Code::BadRequest => "Bad request"@,
        Code::Conflict => "Conflict"@,
        Code::Forbidden => "Forbidden"@,
        Code::Internal => "Internal server error"@,
        Code::MethodNotAllowed => "Method not allowed"@,
        Code::NotFound => "Not found"@,
        Code::NotImplemented => "Not implemented"@,
        Code::RequestTooLarge => "Request too large"@,
        Code::Unauthorized => "Unauthorized"@,
    }
}

/// An error: a [`Code`] with a human-readable message.
#[derive(Clone, Debug)]
pub struct TCError {
    reason: Code,
    message: String,
}

/// The result type of fallible operations.
pub type TCResult<T> = Result<T, TCError>;

impl TCError {
    /// The code of this error.
    pub closed spec fn code(&self) -> Code {
        self.reason
    }

    /// The text of this error's message.
    pub closed spec fn text(&self) -> Seq<char> {
        self.message@
    }

    pub fn of(reason: Code, message: String) -> (r: TCError)
        ensures
            r.code() == reason,
            r.text() == message@,
    {
        TCError { reason, message }
    }

    pub fn message(&self) -> (r: &str)
        ensures
            r@ == self.text(),
    {
        self.message.as_str()
    }

    /// `"{description of the code}: {message}"`
    pub fn to_string(&self) -> (r: String)
        ensures
            r@ == code_text(self.code()) + ": "@ + self.text(),
    {
        joined(self.reason.as_str(), self.message.as_str())
    }

    pub fn reason(&self) -> (r: &Code)
        ensures
            *r == self.code(),
    {
        &self.reason
    }
}

/// `"{message}: {info}"`
fn joined(message: &str, info: &str) -> (r: String)
    ensures
        r@ == message@ + ": "@ + info@,
{
    let r = String::from_str(message).concat(": ");
    r.concat(info)
}

pub fn bad_request(message: &str, info: &str) -> (r: TCError)
    ensures
        r.code() == Code::BadRequest,
        r.text() == message@ + ": "@ + info@,
{
    TCError::of(Code::BadRequest, joined(message, info))
}

pub fn conflict() -> (r: TCError)
    ensures
        r.code() == Code::Conflict,
        r.text() == "Transaction failed due to a concurrent access conflict"@,
{
    TCError::of(
        Code::Conflict,
        String::from_str("Transaction failed due to a concurrent access conflict"),
    )
}

pub fn forbidden(message: &str, info: &str) -> (r: TCError)
    ensures
        r.code() == Code::Forbidden,
        r.text() == message@ + ": "@ + info@,
{
    TCError::of(Code::Forbidden, joined(message, info))
}

pub fn internal(cause: &str) -> (r: TCError)
    ensures
        r.code() == Code::Internal,
        r.text() == cause@,
{
    TCError::of(Code::Internal, String::from_str(cause))
}

pub fn method_not_allowed(id: &str) -> (r: TCError)
    ensures
        r.code() == Code::Internal,
        r.text() == "This resource does not support this request method: "@ + id@,
{
    TCError::of(
        Code::Internal,
        String::from_str("This resource does not support this request method: ").concat(id),
    )
}

pub fn not_found(id: &str) -> (r: TCError)
    ensures
        r.code() == Code::NotFound,
        r.text() == "The requested resource could not be found: "@ + id@,
{
    TCError::of(
        Code::NotFound,
        String::from_str("The requested resource could not be found: ").concat(id),
    )
}

pub fn not_implemented(feature: &str) -> (r: TCError)
    ensures
        r.code() == Code::NotImplemented,
        r.text() == "This feature is not yet implemented: "@ + feature@,
{
    TCError::of(
        Code::NotImplemented,
        String::from_str("This feature is not yet implemented: ").concat(feature),
    )
}

pub fn unsupported(hint: &str) -> (r: TCError)
    ensures
        r.code() == Code::BadRequest,
        r.text() == hint@,
{
    TCError::of(Code::BadRequest, String::from_str(hint))
}

pub fn request_too_large(max_size: usize) -> (r: TCError)
    ensures
        r.code() == Code::RequestTooLarge,
        r.text() == "This request exceeds the maximum allowed size of "@ + decimal(
            max_size as nat,
        ) + " bytes"@,
{
    let message = String::from_str("This request exceeds the maximum allowed size of ");
    let size = to_decimal(max_size as u128);
    let message = message.concat(size.as_str()).concat(" bytes");
    TCError::of(Code::RequestTooLarge, message)
}

pub fn unauthorized(message: &str) -> (r: TCError)
    ensures
        r.code() == Code::Unauthorized,
        r.text() == message@,
{
    TCError::of(Code::Unauthorized, String::from_str(message))
}

} // verus!
