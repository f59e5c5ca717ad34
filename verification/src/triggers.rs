//! Answers to requests on triggers and alerts.

use crate::text::option_view;
use vstd::prelude::*;

verus! {

/// The status of a request that was carried out.
pub const STATUS_OK: u16 = 200;

/// The status of a request for what is not there.
pub const STATUS_NOT_FOUND: u16 = 404;

/// The body of an answer: its status, and a message or an error.
#[derive(Debug, PartialEq)]
pub struct MetaHttpResponse {
    pub code: u16,
    pub message: Option<String>,
    pub error: Option<String>,
}

/// What a `MetaHttpResponse` says.
pub struct MetaView {
    pub code: u16,
    pub message: Option<Seq<char>>,
    pub error: Option<Seq<char>>,
}

impl View for MetaHttpResponse {
    type V = MetaView;

    open spec fn view(&self) -> MetaView {
        MetaView {
            code: self.code,
            message: option_view(self.message),
            error: option_view(self.error),
        }
    }
}

impl MetaHttpResponse {
    /// An answer with a message.
    pub fn message(code: u16, message: String) -> (result: MetaHttpResponse)
        ensures
            result@ == (MetaView { code, message: Some(message@), error: None }),
    {
        MetaHttpResponse { code, message: Some(message), error: None }
    }

    /// An answer with an error.
    pub fn error(code: u16, error: Option<String>) -> (result: MetaHttpResponse)
        ensures
            result@ == (MetaView { code, message: None, error: option_view(error) }),
    {
        MetaHttpResponse { code, message: None, error }
    }
}

/// The answer to a request for an alert: the alert, or that it is not there.
#[derive(Debug, PartialEq)]
pub enum AlertAnswer<A> {
    Found(A),
    Missing(MetaHttpResponse),
}

impl<A> AlertAnswer<A> {
    /// The status of the answer.
    pub fn status(&self) -> (result: u16)
        ensures
            result == match *self {
                AlertAnswer::Found(_) => STATUS_OK,
                AlertAnswer::Missing(body) => body.code,
            },
    {
        match self {
            AlertAnswer::Found(_) => STATUS_OK,
            AlertAnswer::Missing(body) => body.code,
        }
    }
}

/// The answer once a trigger has been saved.
pub fn save_trigger() -> (result: MetaHttpResponse)
    ensures
        result@ == (MetaView { code: STATUS_OK, message: Some("Trigger saved"@), error: None }),
{
    MetaHttpResponse::message(STATUS_OK, "Trigger saved".to_string())
}

/// The answer once a trigger was to be deleted; an error is told.
pub fn delete_trigger(deleted: Result<(), String>) -> (result: MetaHttpResponse)
    ensures
        result@ == match deleted {
            Ok(_) => MetaView {
                code: STATUS_OK,
                message: Some("Trigger deleted "@),
                error: None,
            },
            Err(error) => MetaView {
                code: STATUS_NOT_FOUND,
                message: None,
                error: Some(error@),
            },
        },
{
    match deleted {
        Ok(_) => MetaHttpResponse::message(STATUS_OK, "Trigger deleted ".to_string()),
        Err(error) => MetaHttpResponse::error(STATUS_NOT_FOUND, Some(error)),
    }
}

/// The answer once an alert was looked for; an error is not told.
pub fn get_alert<A>(found: Result<A, String>) -> (result: AlertAnswer<A>)
    ensures
        match found {
            Ok(alert) => result == AlertAnswer::Found(alert),
            Err(_) => result matches AlertAnswer::Missing(body) && body@ == (MetaView {
                code: STATUS_NOT_FOUND,
                message: None,
                error: Some("alert not found"@),
            }),
        },
{
    match found {
        Ok(alert) => AlertAnswer::Found(alert),
        Err(_) => AlertAnswer::Missing(
            MetaHttpResponse::error(STATUS_NOT_FOUND, Some("alert not found".to_string())),
        ),
    }
}

} // verus!
