//! The channel a chat turn came from, carried explicitly so that jobs
//! scheduled during the turn can answer into the same thread.

use crate::text::{ascii_lower, chars_eq, from_chars, to_ascii_lowercase, to_chars, trim, trim_chars};
use vstd::prelude::*;

verus! {

/// Where the output of a scheduled job is delivered.
#[derive(Debug)]
pub struct DeliveryConfig {
    pub mode: String,
    pub channel: Option<String>,
    pub to: Option<String>,
    pub best_effort: bool,
}

/// The origin of the message that is being handled.
#[derive(Debug)]
pub struct ChannelExecutionContext {
    pub channel: String,
    pub recipient: String,
    pub thread_ts: Option<String>,
}

fn copy_optional(s: &Option<String>) -> (r: Option<String>)
    ensures
        r == *s,
{
    match s {
        Some(text) => Some(text.clone()),
        None => None,
    }
}

impl ChannelExecutionContext {
    pub fn new(channel: &str, recipient: &str, thread_ts: Option<String>) -> (r: Self)
        ensures
            r.channel@ == channel@,
            r.recipient@ == recipient@,
            r.thread_ts == thread_ts,
    {
        ChannelExecutionContext {
            channel: channel.to_owned(),
            recipient: recipient.to_owned(),
            thread_ts,
        }
    }

    /// A copy with the same fields.
    pub fn duplicate(&self) -> (r: Self)
        ensures
            r == *self,
    {
        ChannelExecutionContext {
            channel: self.channel.clone(),
            recipient: self.recipient.clone(),
            thread_ts: copy_optional(&self.thread_ts),
        }
    }
}

/// The scope of one chat turn: the context entered for it, if any.
#[derive(Debug)]
pub struct ContextScope {
    pub current: Option<ChannelExecutionContext>,
}

impl ContextScope {
    /// The scope outside any chat turn.
    pub fn outside() -> (r: Self)
        ensures
            r.current.is_none(),
    {
        ContextScope { current: None }
    }

    /// The scope of a turn that came from `ctx`.
    pub fn entered(ctx: ChannelExecutionContext) -> (r: Self)
        ensures
            r.current == Some(ctx),
    {
        ContextScope { current: Some(ctx) }
    }
}

/// The context of the turn that `scope` belongs to.
pub fn current_channel_execution_context(scope: &ContextScope) -> (r: Option<
    ChannelExecutionContext,
>)
    ensures
        r == scope.current,
{
    match &scope.current {
        Some(ctx) => Some(ctx.duplicate()),
        None => None,
    }
}

/// Whether jobs scheduled under `scope` are announced into a chat thread:
/// the turn came from the chat store and names a recipient.
pub open spec fn announces_to_thread(scope: ContextScope) -> bool {
    match scope.current {
        Some(ctx) => trim(ctx.recipient@).len() > 0 && ascii_lower(trim(ctx.channel@))
            == "pocketbase"@,
        None => false,
    }
}

/// The delivery that a job scheduled under `scope` gets when it names none:
/// an announcement into the originating chat thread, best effort; nothing
/// for other channels or outside a turn.
pub fn default_cron_delivery_for_current_channel(scope: &ContextScope) -> (r: Option<
    DeliveryConfig,
>)
    ensures
        match r {
            Some(d) => {
                &&& announces_to_thread(*scope)
                &&& d.mode@ == "announce"@
                &&& d.channel matches Some(c) && c@ == "pocketbase"@
                &&& d.to matches Some(t) && t@ == trim(scope.current->0.recipient@)
                &&& d.best_effort
            },
            None => !announces_to_thread(*scope),
        },
{
    let ctx = match current_channel_execution_context(scope) {
        Some(ctx) => ctx,
        None => {
            return None;
        },
    };
    let channel = to_ascii_lowercase(&trim_chars(&to_chars(ctx.channel.as_str())));
    let recipient = trim_chars(&to_chars(ctx.recipient.as_str()));
    if recipient.len() == 0 {
        return None;
    }
    if chars_eq(&channel, &to_chars("pocketbase")) {
        Some(
            DeliveryConfig {
                mode: "announce".to_owned(),
                channel: Some("pocketbase".to_owned()),
                to: Some(from_chars(&recipient)),
                best_effort: true,
            },
        )
    } else {
        None
    }
}

} // verus!
