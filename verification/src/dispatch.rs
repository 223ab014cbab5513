//! What is recorded around a request to the assistant.

use vstd::prelude::*;

verus! {

/// Something that happened while a request was handled.
#[derive(Debug)]
pub enum ObserverEvent {
    AgentStart { provider: String, model: String },
    LlmRequest { provider: String, model: String, messages_count: usize },
    LlmResponse {
        provider: String,
        model: String,
        duration_ms: u64,
        success: bool,
        error_message: Option<String>,
    },
    RequestLatency { duration_ms: u64 },
    Error { component: String, message: String },
    AgentEnd { provider: String, model: String, duration_ms: u64 },
}

/// The provider named in events where none is configured.
pub fn provider_label(configured: Option<&str>) -> (r: String)
    ensures
        r@ == match configured {
            Some(p) => p@,
            None => "unknown"@,
        },
{
    match configured {
        Some(p) => p.to_owned(),
        None => "unknown".to_owned(),
    }
}

/// What is recorded before the assistant is asked: that the agent starts,
/// and that one message is sent to the model.
pub fn events_before(provider: &str, model: &str) -> (r: Vec<ObserverEvent>)
    ensures
        r@.len() == 2,
        r@[0] matches ObserverEvent::AgentStart { provider: p, model: m } && p@ == provider@ && m@
            == model@,
        r@[1] matches ObserverEvent::LlmRequest { provider: p, model: m, messages_count } && p@
            == provider@ && m@ == model@ && messages_count == 1,
{
    let mut r: Vec<ObserverEvent> = Vec::new();
    r.push(ObserverEvent::AgentStart { provider: provider.to_owned(), model: model.to_owned() });
    r.push(
        ObserverEvent::LlmRequest {
            provider: provider.to_owned(),
            model: model.to_owned(),
            messages_count: 1,
        },
    );
    r
}

/// What is recorded after the assistant answered or failed, in this order:
/// the response with its duration, the latency, for a failure the error
/// under the component `gateway`, and that the agent ends.  `failure` is the
/// sanitised error message of a failed request.
pub fn events_after(provider: &str, model: &str, duration_ms: u64, failure: Option<&str>) -> (r:
    Vec<ObserverEvent>)
    ensures
        r@.len() == if failure.is_some() {
            4nat
        } else {
            3nat
        },
        r@[0] matches ObserverEvent::LlmResponse {
            provider: p,
            model: m,
            duration_ms: d,
            success,
            error_message,
        } && p@ == provider@ && m@ == model@ && d == duration_ms && success == failure.is_none()
            && match failure {
            Some(f) => error_message matches Some(e) && e@ == f@,
            None => error_message.is_none(),
        },
        r@[1] matches ObserverEvent::RequestLatency { duration_ms: d } && d == duration_ms,
        failure matches Some(f) ==> r@[2] matches ObserverEvent::Error { component, message }
            && component@ == "gateway"@ && message@ == f@,
        r@.last() matches ObserverEvent::AgentEnd { provider: p, model: m, duration_ms: d } && p@
            == provider@ && m@ == model@ && d == duration_ms,
{
    let mut r: Vec<ObserverEvent> = Vec::new();
    r.push(
        ObserverEvent::LlmResponse {
            provider: provider.to_owned(),
            model: model.to_owned(),
            duration_ms,
            success: failure.is_none(),
            error_message: match failure {
                Some(f) => Some(f.to_owned()),
                None => None,
            },
        },
    );
    r.push(ObserverEvent::RequestLatency { duration_ms });
    match failure {
        Some(f) => {
            r.push(ObserverEvent::Error { component: "gateway".to_owned(), message: f.to_owned() });
        },
        None => {},
    }
    r.push(
        ObserverEvent::AgentEnd {
            provider: provider.to_owned(),
            model: model.to_owned(),
            duration_ms,
        },
    );
    r
}

/// How a request to the assistant is answered over HTTP: the status, and
/// for a failure the fixed text that stands in for the upstream error.
pub fn response_status(failed: bool) -> (r: (u16, &'static str))
    ensures
        r.0 == if failed {
            500u16
        } else {
            200u16
        },
        r.1@ == if failed {
            "LLM request failed"@
        } else {
            ""@
        },
{
    if failed {
        (500, "LLM request failed")
    } else {
        (200, "")
    }
}

} // verus!
