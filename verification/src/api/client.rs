//! What is made of a fetched response: which responses are accepted, which
//! error stands for a refused one, and which product a refresh hands on.

use vstd::prelude::*;
use crate::api::models::{product_of, BazaarResponse, Product};

verus! {

/// Why a snapshot could not be had. The variants that stand for a failure
/// outside the library carry its description.
#[derive(Debug, Clone, PartialEq, Eq)]
pub enum ApiError {
    /// The request failed in transport.
    Http(String),
    /// The server answered with a status outside the successful ones.
    Status(u16),
    /// The service reported a failure; the text is its cause.
    ApiUnavailable(String),
    /// The payload could not be read.
    Parse(String),
    /// Reading or writing failed.
    Io(String),
}

/// The character for one decimal digit.
pub open spec fn digit(d: nat) -> char {
    ('0' as u32 + d) as char
}

/// A number written in decimal.
pub open spec fn decimal(n: nat) -> Seq<char>
    decreases n,
{
    if n < 10 {
        seq![digit(n)]
    } else {
        decimal(n / 10).push(digit(n % 10))
    }
}

/// The successful statuses: 200 to 299.
pub open spec fn successful(status: u16) -> bool {
    200 <= status <= 299
}

/// The cause that stands for a failure that a snapshot reports: its own
/// where it names one, else `Unknown error`.
pub open spec fn reported_cause(response: BazaarResponse) -> Seq<char> {
    match response.cause {
        Some(cause) => cause@,
        None => "Unknown error"@,
    }
}

impl ApiError {
    /// The text that describes the error.
    pub open spec fn text(self) -> Seq<char> {
        match self {
            ApiError::Http(e) => "HTTP error: "@ + e@,
            ApiError::Status(s) => "Unexpected HTTP status: "@ + decimal(s as nat),
            ApiError::ApiUnavailable(cause) => "API unavailable: "@ + cause@,
            ApiError::Parse(e) => "Parse error: "@ + e@,
            ApiError::Io(e) => "IO error: "@ + e@,
        }
    }

    /// The text that describes the error.
    pub fn message(&self) -> (out: String)
        ensures
            out@ == self.text(),
    {
        match self {
            ApiError::Http(e) => {
                let mut out = String::from_str("HTTP error: ");
                out.append(e.as_str());
                out
            },
            ApiError::Status(s) => {
                let mut out = String::from_str("Unexpected HTTP status: ");
                let ghost head = out@;
                let mut digits: Vec<char> = Vec::new();
                push_decimal(*s, &mut digits);
                let mut i: usize = 0;
                while i < digits.len()
                    invariant
                        i <= digits.len(),
                        out@ == head + digits@.take(i as int),
                    decreases digits.len() - i,
                {
                    out.push(digits[i]);
                    proof {
                        assert(digits@.take(i + 1) == digits@.take(i as int).push(digits@[i as int]));
                    }
                    i += 1;
                }
                proof {
                    assert(digits@.take(digits.len() as int) == digits@);
                }
                out
            },
            ApiError::ApiUnavailable(cause) => {
                let mut out = String::from_str("API unavailable: ");
                out.append(cause.as_str());
                out
            },
            ApiError::Parse(e) => {
                let mut out = String::from_str("Parse error: ");
                out.append(e.as_str());
                out
            },
            ApiError::Io(e) => {
                let mut out = String::from_str("IO error: ");
                out.append(e.as_str());
                out
            },
        }
    }
}

/// Appends a number in decimal.
fn push_decimal(n: u16, out: &mut Vec<char>)
    ensures
        final(out)@ == old(out)@ + decimal(n as nat),
    decreases n,
{
    if n >= 10 {
        push_decimal(n / 10, out);
    }
    let d = (n % 10) as u8;
    out.push((48u8 + d) as char);
    proof {
        if n >= 10 {
            assert(old(out)@ + decimal(n as nat) == (old(out)@ + decimal((n / 10) as nat)).push(
                digit((n % 10) as nat),
            ));
        } else {
            assert(old(out)@ + decimal(n as nat) == old(out)@.push(digit(n as nat)));
        }
    }
}

/// Whether a status is one of the successful ones.
pub fn is_success(status: u16) -> (b: bool)
    ensures
        b == successful(status),
{
    200 <= status && status <= 299
}

/// Accepts a successful status; any other is an error that carries it.
pub fn check_status(status: u16) -> (checked: Result<(), ApiError>)
    ensures
        successful(status) ==> checked is Ok,
        !successful(status) ==> checked == Err::<(), ApiError>(ApiError::Status(status)),
{
    if is_success(status) {
        Ok(())
    } else {
        Err(ApiError::Status(status))
    }
}

/// Accepts a snapshot that reports success and hands it back as it is; one
/// that reports a failure is an error that carries the reported cause.
pub fn check_response(response: BazaarResponse) -> (checked: Result<BazaarResponse, ApiError>)
    ensures
        response.success ==> checked == Ok::<BazaarResponse, ApiError>(response),
        !response.success ==> (checked matches Err(ApiError::ApiUnavailable(cause)) && cause@
            == reported_cause(response)),
{
    if response.success {
        Ok(response)
    } else {
        let cause = match response.cause {
            Some(cause) => cause,
            None => String::from_str("Unknown error"),
        };
        Err(ApiError::ApiUnavailable(cause))
    }
}

/// What one poll of the refresh hands on: the product that stands for the
/// polled id in a fetched snapshot. A failed fetch and a snapshot without
/// the product hand on nothing.
pub fn pick_update(fetched: Result<BazaarResponse, ApiError>, product_id: &str) -> (update: Option<
    Product,
>)
    ensures
        update == match fetched {
            Ok(response) => product_of(response.products@, product_id@),
            Err(_) => None,
        },
{
    match fetched {
        Ok(response) => response.take_product(product_id),
        Err(_) => None,
    }
}

} // verus!
