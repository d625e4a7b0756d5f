//! Errors of the Zaptec API client.

use core::num::ParseIntError;
use core::str::Utf8Error;
use vstd::prelude::*;
use vstd::std_specs::convert::FromSpecImpl;

verus! {

/// The standard library's UTF-8 decoding error, carried opaquely.
#[verifier::external_type_specification]
#[verifier::external_body]
pub struct ExUtf8Error(Utf8Error);

/// The standard library's integer parsing error, carried opaquely.
#[verifier::external_type_specification]
#[verifier::external_body]
pub struct ExParseIntError(ParseIntError);

/// The HTTP client's error, carried opaquely.
#[verifier::external_type_specification]
#[verifier::external_body]
pub struct ExRequestError(reqwless::Error);

/// Failure while obtaining or reading a Zaptec API response.
#[derive(Debug)]
pub enum ZaptecError {
    /// The HTTP exchange itself failed.
    TokenRequest(reqwless::Error),
    /// The response body did not have the expected content.
    TokenResponse(TokenResponseError),
}

/// What was wrong with a response body.
#[derive(Debug, Clone, Copy, PartialEq, Eq, Structural)]
pub enum TokenResponseError {
    /// The body is not valid UTF-8.
    NotAString,
    /// No field of the body mentions `access_token`.
    NoTokenLine,
    /// No field after the token mentions `expires_in`.
    NoExpiresLine,
    /// The `expires_in` value is not an unsigned 64-bit decimal number.
    MalformedExpiresLine,
}

impl From<TokenResponseError> for ZaptecError {
    fn from(e: TokenResponseError) -> (r: Self) {
        ZaptecError::TokenResponse(e)
    }
}

impl FromSpecImpl<TokenResponseError> for ZaptecError {
    open spec fn obeys_from_spec() -> bool {
        true
    }

    open spec fn from_spec(e: TokenResponseError) -> Self {
        ZaptecError::TokenResponse(e)
    }
}

impl From<ParseIntError> for ZaptecError {
    fn from(_e: ParseIntError) -> (r: Self) {
        ZaptecError::TokenResponse(TokenResponseError::MalformedExpiresLine)
    }
}

impl FromSpecImpl<ParseIntError> for ZaptecError {
    open spec fn obeys_from_spec() -> bool {
        true
    }

    open spec fn from_spec(_e: ParseIntError) -> Self {
        ZaptecError::TokenResponse(TokenResponseError::MalformedExpiresLine)
    }
}

impl From<Utf8Error> for ZaptecError {
    fn from(_e: Utf8Error) -> (r: Self) {
        ZaptecError::TokenResponse(TokenResponseError::NotAString)
    }
}

impl FromSpecImpl<Utf8Error> for ZaptecError {
    open spec fn obeys_from_spec() -> bool {
        true
    }

    open spec fn from_spec(_e: Utf8Error) -> Self {
        ZaptecError::TokenResponse(TokenResponseError::NotAString)
    }
}

impl From<reqwless::Error> for ZaptecError {
    fn from(e: reqwless::Error) -> (r: Self) {
        ZaptecError::TokenRequest(e)
    }
}

impl FromSpecImpl<reqwless::Error> for ZaptecError {
    open spec fn obeys_from_spec() -> bool {
        true
    }

    open spec fn from_spec(e: reqwless::Error) -> Self {
        ZaptecError::TokenRequest(e)
    }
}

} // verus!
