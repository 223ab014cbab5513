//! The chat bridge: which records of the chat store a tick picks up, what it
//! does with each, and what it writes back.

use crate::context::DeliveryConfig;
use crate::reminder::{parse_reminder_intent, reminder_intent, ReminderIntent};
use crate::text::{
    ascii_lower, chars_eq, extend_chars, extend_str, from_chars, is_ascii_digit,
    lemma_leading, lemma_trailing_unique, parse_digits, digits_value, leading, slice_chars,
    strip_trailing, to_ascii_lowercase, to_chars, trim, trim_chars, trim_end, trim_end_bound,
    count_leading_digits,
};
use vstd::prelude::*;

verus! {

/// Collection polled where none is configured.
pub fn default_chat_collection() -> (r: &'static str)
    ensures
        r@ == "chat_messages"@,
{
    "chat_messages"
}

/// Milliseconds between ticks where none are configured.
pub const DEFAULT_POLL_MS: u64 = 1_500;

/// Shortest interval between ticks that can be configured.
pub const MIN_POLL_MS: u64 = 250;

/// Most records handled in one tick.
pub const MAX_PENDING_PER_POLL: usize = 8;

/// Records asked for per page.
pub const FETCH_PAGE_SIZE: usize = 30;

/// Most pages fetched in one tick.
pub const MAX_FETCH_PAGES: usize = 5;

/// Longest error text written back to the store, in characters.
pub const MAX_ERROR_CHARS: usize = 2000;

/// A record of the chat store, as far as the bridge reads it.
#[derive(Debug)]
pub struct ChatRecord {
    pub id: String,
    pub thread_id: Option<String>,
    pub role: Option<String>,
    pub content: Option<String>,
    pub status: Option<String>,
}

/// The number that a setting spells, if it is all digits and fits.
pub open spec fn setting_number(value: Seq<char>) -> Option<u64> {
    let t = trim(value);
    if t.len() > 0 && leading(t, |c: char| is_ascii_digit(c)) == t.len() && digits_value(t)
        <= u64::MAX {
        Some(digits_value(t) as u64)
    } else {
        None
    }
}

/// The interval between ticks: the configured number of milliseconds where
/// it is at least `MIN_POLL_MS`, else the default.
pub open spec fn poll_interval(configured: Option<Seq<char>>) -> u64 {
    match configured {
        Some(v) => match setting_number(v) {
            Some(n) => if n >= MIN_POLL_MS {
                n
            } else {
                DEFAULT_POLL_MS
            },
            None => DEFAULT_POLL_MS,
        },
        None => DEFAULT_POLL_MS,
    }
}

pub fn poll_interval_ms(configured: Option<&str>) -> (r: u64)
    ensures
        r == poll_interval(
            match configured {
                Some(v) => Some(v@),
                None => None,
            },
        ),
        r >= MIN_POLL_MS,
{
    let value = match configured {
        Some(v) => v,
        None => {
            return DEFAULT_POLL_MS;
        },
    };
    let t = trim_chars(&to_chars(value));
    let n = count_leading_digits(&t);
    if t.len() == 0 || n != t.len() {
        return DEFAULT_POLL_MS;
    }
    proof {
        lemma_leading(t@, |c: char| is_ascii_digit(c));
    }
    match parse_digits(&t) {
        Some(ms) => if ms >= MIN_POLL_MS {
            ms
        } else {
            DEFAULT_POLL_MS
        },
        None => DEFAULT_POLL_MS,
    }
}

/// Whether a switch is on: its value, trimmed and in lower case, is `1`,
/// `true`, `yes` or `on`.
pub open spec fn is_on(value: Option<Seq<char>>) -> bool {
    match value {
        Some(v) => {
            let t = ascii_lower(trim(v));
            t == "1"@ || t == "true"@ || t == "yes"@ || t == "on"@
        },
        None => false,
    }
}

pub fn env_flag(value: Option<&str>) -> (r: bool)
    ensures
        r == is_on(
            match value {
                Some(v) => Some(v@),
                None => None,
            },
        ),
{
    match value {
        Some(v) => {
            let t = to_ascii_lowercase(&trim_chars(&to_chars(v)));
            chars_eq(&t, &to_chars("1")) || chars_eq(&t, &to_chars("true")) || chars_eq(
                &t,
                &to_chars("yes"),
            ) || chars_eq(&t, &to_chars("on"))
        },
        None => false,
    }
}

pub open spec fn is_slash(c: char) -> bool {
    c == '/'
}

/// A base URL as it is used: trimmed and without trailing slashes.
pub open spec fn base_url_of(value: Seq<char>) -> Seq<char> {
    strip_trailing(trim(value), |c: char| is_slash(c))
}

fn char_is_slash(c: char) -> (r: bool)
    ensures
        r == is_slash(c),
{
    c == '/'
}

/// The base URL of the chat store: the first of the two settings and the
/// sidecar's address that is given, normalised, and nothing where that
/// leaves nothing.
pub fn resolve_base_url(primary: Option<&str>, secondary: Option<&str>, sidecar: Option<&str>) -> (r:
    Option<String>)
    ensures
        ({
            let chosen = match primary {
                Some(v) => Some(v@),
                None => match secondary {
                    Some(v) => Some(v@),
                    None => match sidecar {
                        Some(v) => Some(v@),
                        None => None,
                    },
                },
            };
            match r {
                Some(url) => chosen matches Some(v) && url@ == base_url_of(v) && url@.len() > 0,
                None => match chosen {
                    Some(v) => base_url_of(v).len() == 0,
                    None => true,
                },
            }
        }),
{
    let chosen = match primary {
        Some(v) => v,
        None => match secondary {
            Some(v) => v,
            None => match sidecar {
                Some(v) => v,
                None => {
                    return None;
                },
            },
        },
    };
    let t = trim_chars(&to_chars(chosen));
    let ghost p = |c: char| is_slash(c);
    let mut b: usize = t.len();
    while b > 0 && char_is_slash(t[b - 1])
        invariant
            b <= t.len(),
            forall|c: char| p(c) == is_slash(c),
            forall|k: int| b <= k < t.len() ==> p(#[trigger] t@[k]),
        decreases b,
    {
        b = b - 1;
    }
    proof {
        lemma_trailing_unique(t@, p, t.len() - b);
    }
    if b == 0 {
        return None;
    }
    let url = slice_chars(&t, 0, b);
    assert(url@ == t@.take(b as int));
    Some(from_chars(&url))
}

/// Whether a field holds exactly `word`.
pub open spec fn field_is(field: Option<String>, word: Seq<char>) -> bool {
    match field {
        Some(v) => v@ == word,
        None => false,
    }
}

/// Whether a record waits to be handled: its role is `user` and its status is
/// `pending`.
pub open spec fn is_pending_user(record: ChatRecord) -> bool {
    field_is(record.role, "user"@) && field_is(record.status, "pending"@)
}

fn field_matches(field: &Option<String>, word: &str) -> (r: bool)
    ensures
        r == field_is(*field, word@),
{
    match field {
        Some(v) => crate::text::str_eq(v.as_str(), word),
        None => false,
    }
}

pub fn record_is_pending_user(record: &ChatRecord) -> (r: bool)
    ensures
        r == is_pending_user(*record),
{
    field_matches(&record.role, "user") && field_matches(&record.status, "pending")
}

/// Whether a tick fetches another page after page number `page`, counted
/// from one, came back with `page_len` records: the page was full and the
/// page limit is not reached.
pub fn wants_next_page(page: usize, page_len: usize) -> (r: bool)
    ensures
        r == (page < MAX_FETCH_PAGES && page_len >= FETCH_PAGE_SIZE),
{
    page < MAX_FETCH_PAGES && page_len >= FETCH_PAGE_SIZE
}

/// Adds the waiting records of a page to those collected so far, in the
/// order of the page.
pub fn collect_pending(collected: &mut Vec<ChatRecord>, page: Vec<ChatRecord>)
    ensures
        final(collected)@ == old(collected)@ + page@.filter(|r: ChatRecord| is_pending_user(r)),
{
    let ghost p = |r: ChatRecord| is_pending_user(r);
    let ghost all = page@;
    let mut rest = page;
    let ghost mut done: Seq<ChatRecord> = Seq::empty();
    proof {
        reveal(Seq::filter);
        assert(done + rest@ =~= all);
        assert(collected@ =~= old(collected)@ + done.filter(p));
    }
    while rest.len() > 0
        invariant
            p == (|r: ChatRecord| is_pending_user(r)),
            done + rest@ == all,
            collected@ == old(collected)@ + done.filter(p),
        decreases rest.len(),
    {
        let ghost before = rest@;
        let record = rest.remove(0);
        proof {
            crate::limiter::lemma_filter_push(done, record, p);
            assert(done.push(record) + rest@ =~= done + before);
        }
        let keep = record_is_pending_user(&record);
        if keep {
            collected.push(record);
        }
        proof {
            if keep {
                assert(collected@ =~= old(collected)@ + done.push(record).filter(p));
            }
            done = done.push(record);
        }
    }
    proof {
        assert(done =~= all);
    }
}

/// The records a tick works on: the collected ones from the last to the
/// first, and of those the first `MAX_PENDING_PER_POLL`.
pub open spec fn batch_of(collected: Seq<ChatRecord>) -> Seq<ChatRecord> {
    let reversed = collected.reverse();
    if reversed.len() > MAX_PENDING_PER_POLL {
        reversed.take(MAX_PENDING_PER_POLL as int)
    } else {
        reversed
    }
}

pub fn take_batch(collected: Vec<ChatRecord>) -> (r: Vec<ChatRecord>)
    ensures
        r@ == batch_of(collected@),
{
    let ghost all = collected@;
    let mut rest = collected;
    let mut r: Vec<ChatRecord> = Vec::new();
    while rest.len() > 0 && r.len() < MAX_PENDING_PER_POLL
        invariant
            r@.len() + rest@.len() == all.len(),
            r@.len() <= MAX_PENDING_PER_POLL,
            rest@ == all.take(rest@.len() as int),
            r@ == all.reverse().take(r@.len() as int),
        decreases rest.len(),
    {
        let ghost n = rest@.len();
        let ghost prev = r@;
        match rest.pop() {
            Some(record) => {
                r.push(record);
                proof {
                    assert(record == all[n - 1]);
                    assert(all.reverse()[prev.len() as int] == all[all.len() - 1 - prev.len()]);
                    assert(r@ =~= all.reverse().take(r@.len() as int));
                    assert(rest@ =~= all.take(rest@.len() as int));
                }
            },
            None => {},
        }
    }
    proof {
        if rest.len() == 0 {
            assert(all.reverse().take(all.len() as int) =~= all.reverse());
        }
    }
    r
}

/// The thread of a record: its thread id, trimmed, or `default`.
pub open spec fn thread_name(thread_id: Option<String>) -> Seq<char> {
    match thread_id {
        Some(t) => if trim(t@).len() > 0 {
            trim(t@)
        } else {
            "default"@
        },
        None => "default"@,
    }
}

pub fn thread_of(record: &ChatRecord) -> (r: String)
    ensures
        r@ == thread_name(record.thread_id),
{
    match &record.thread_id {
        Some(t) => {
            let trimmed = trim_chars(&to_chars(t.as_str()));
            if trimmed.len() > 0 {
                from_chars(&trimmed)
            } else {
                "default".to_owned()
            }
        },
        None => "default".to_owned(),
    }
}

/// What a tick does with a record it has claimed.
#[derive(Debug)]
pub enum Plan {
    /// The message is empty: mark the record as failed.
    Reject,
    /// The message asks for a reminder: schedule it.
    Remind(ReminderIntent),
    /// Anything else goes to the assistant.
    Ask,
}

/// The text of a record: its content, or nothing.
pub open spec fn content_of(content: Option<String>) -> Seq<char> {
    match content {
        Some(c) => c@,
        None => Seq::empty(),
    }
}

/// Decides what to do with a claimed record: an empty message is rejected,
/// a reminder request is scheduled, everything else is asked of the
/// assistant.
pub fn plan_record(record: &ChatRecord) -> (r: Plan)
    ensures
        match r {
            Plan::Reject => trim(content_of(record.content)).len() == 0,
            Plan::Remind(intent) => trim(content_of(record.content)).len() > 0 && reminder_intent(
                content_of(record.content),
            ) == Some(intent@),
            Plan::Ask => trim(content_of(record.content)).len() > 0 && reminder_intent(
                content_of(record.content),
            ).is_none(),
        },
{
    let content: &str = match &record.content {
        Some(c) => c.as_str(),
        None => "",
    };
    proof {
        if record.content.is_none() {
            reveal_strlit("");
            assert(""@ =~= Seq::<char>::empty());
        }
    }
    if trim_chars(&to_chars(content)).len() == 0 {
        return Plan::Reject;
    }
    match parse_reminder_intent(content) {
        Some(intent) => Plan::Remind(intent),
        None => Plan::Ask,
    }
}

/// `text` in single quotes for a shell, every single quote inside it
/// written as `'"'"'`.
pub open spec fn quoted_body(text: Seq<char>) -> Seq<char>
    decreases text.len(),
{
    if text.len() == 0 {
        Seq::empty()
    } else if text.last() == '\'' {
        quoted_body(text.drop_last()) + "'\"'\"'"@
    } else {
        quoted_body(text.drop_last()).push(text.last())
    }
}

pub open spec fn single_quoted(text: Seq<char>) -> Seq<char> {
    "'"@ + quoted_body(text) + "'"@
}

pub fn shell_single_quote(text: &str) -> (r: String)
    ensures
        r@ == single_quoted(text@),
{
    let chars = to_chars(text);
    let mut out: Vec<char> = Vec::new();
    extend_str(&mut out, "'");
    let ghost head = out@;
    let mut i: usize = 0;
    assert(chars@.take(0) =~= Seq::<char>::empty());
    while i < chars.len()
        invariant
            i <= chars.len(),
            head == "'"@,
            out@ == head + quoted_body(chars@.take(i as int)),
        decreases chars.len() - i,
    {
        let c = chars[i];
        proof {
            assert(chars@.take(i + 1).drop_last() =~= chars@.take(i as int));
            assert(chars@.take(i + 1).last() == c);
        }
        let ghost before = out@;
        if c == '\'' {
            extend_str(&mut out, "'\"'\"'");
            assert(out@ =~= head + (quoted_body(chars@.take(i as int)) + "'\"'\"'"@));
        } else {
            out.push(c);
            assert(out@ =~= head + quoted_body(chars@.take(i as int)).push(c));
        }
        i = i + 1;
    }
    assert(chars@.take(chars.len() as int) =~= chars@);
    extend_str(&mut out, "'");
    from_chars(&out)
}

/// `text` cut to at most `max_chars` characters: whole if it fits, else its
/// start, without trailing whitespace, followed by `...`.  Where there is no
/// room for the dots, the start alone.
pub open spec fn truncated(text: Seq<char>, max_chars: nat) -> Seq<char> {
    if text.len() <= max_chars {
        text
    } else if max_chars < 3 {
        text.take(max_chars as int)
    } else {
        trim_end(text.take(max_chars - 3)) + "..."@
    }
}

/// Truncation never leaves more than `max_chars` characters.
pub proof fn lemma_truncated_fits(text: Seq<char>, max_chars: nat)
    ensures
        truncated(text, max_chars).len() <= max_chars,
{
    if text.len() > max_chars && max_chars >= 3 {
        reveal_strlit("...");
        let start = text.take(max_chars - 3);
        crate::text::lemma_trailing(start, |c: char| crate::text::is_whitespace(c));
    }
}

pub fn truncate_with_ellipsis(text: &str, max_chars: usize) -> (r: String)
    ensures
        r@ == truncated(text@, max_chars as nat),
        r@.len() <= max_chars,
{
    proof {
        lemma_truncated_fits(text@, max_chars as nat);
    }
    let chars = to_chars(text);
    if chars.len() <= max_chars {
        return from_chars(&chars);
    }
    if max_chars < 3 {
        let start = slice_chars(&chars, 0, max_chars);
        assert(start@ == chars@.take(max_chars as int));
        return from_chars(&start);
    }
    let start = slice_chars(&chars, 0, max_chars - 3);
    assert(start@ == chars@.take(max_chars - 3));
    let b = trim_end_bound(&start);
    let mut out = slice_chars(&start, 0, b);
    assert(out@ == start@.take(b as int));
    extend_str(&mut out, "...");
    from_chars(&out)
}

/// What the scheduler runs for a reminder: an `echo` of the reminder text.
pub open spec fn reminder_command_text(message: Seq<char>) -> Seq<char> {
    "echo "@ + single_quoted("Reminder: "@ + trim(message))
}

pub fn reminder_command(message: &str) -> (r: String)
    ensures
        r@ == reminder_command_text(message@),
{
    let mut text = to_chars("Reminder: ");
    let m = trim_chars(&to_chars(message));
    extend_chars(&mut text, &m);
    let quoted = shell_single_quote(from_chars(&text).as_str());
    let mut out = to_chars("echo ");
    extend_str(&mut out, quoted.as_str());
    from_chars(&out)
}

/// The name of a reminder job.
pub open spec fn reminder_job_name_text(message: Seq<char>) -> Seq<char> {
    "PB chat reminder: "@ + truncated(message, 48)
}

pub fn reminder_job_name(message: &str) -> (r: String)
    ensures
        r@ == reminder_job_name_text(message@),
{
    let mut out = to_chars("PB chat reminder: ");
    extend_str(&mut out, truncate_with_ellipsis(message, 48).as_str());
    from_chars(&out)
}

/// Where the output of a reminder job goes: announced into the thread the
/// request came from, best effort.
pub fn reminder_delivery(thread_id: &str) -> (r: DeliveryConfig)
    ensures
        r.mode@ == "announce"@,
        r.channel matches Some(c) && c@ == "pocketbase"@,
        r.to matches Some(t) && t@ == thread_id@,
        r.best_effort,
{
    DeliveryConfig {
        mode: "announce".to_owned(),
        channel: Some("pocketbase".to_owned()),
        to: Some(thread_id.to_owned()),
        best_effort: true,
    }
}

/// The confirmation written into the chat when a reminder was scheduled.
pub open spec fn confirmation_text(run_at: Seq<char>, delay_human: Seq<char>, job_id: Seq<char>) -> Seq<
    char,
> {
    "Scheduled reminder for this chat at "@ + run_at + " ("@ + delay_human + ") [job "@ + job_id
        + "]. Note: reminders run from the scheduler, so start `slowclaw daemon` (not only `slowclaw gateway`)."@
}

pub fn reminder_confirmation(run_at: &str, delay_human: &str, job_id: &str) -> (r: String)
    ensures
        r@ == confirmation_text(run_at@, delay_human@, job_id@),
{
    let mut out = to_chars("Scheduled reminder for this chat at ");
    extend_str(&mut out, run_at);
    extend_str(&mut out, " (");
    extend_str(&mut out, delay_human);
    extend_str(&mut out, ") [job ");
    extend_str(&mut out, job_id);
    extend_str(
        &mut out,
        "]. Note: reminders run from the scheduler, so start `slowclaw daemon` (not only `slowclaw gateway`).",
    );
    let r = from_chars(&out);
    assert(r@ =~= confirmation_text(run_at@, delay_human@, job_id@));
    r
}

/// The reply that is written into the chat: the assistant's answer,
/// trimmed, or a placeholder where it is empty.
pub open spec fn reply_text(reply: Seq<char>) -> Seq<char> {
    if trim(reply).len() > 0 {
        trim(reply)
    } else {
        "(empty response)"@
    }
}

pub fn reply_content(reply: &str) -> (r: String)
    ensures
        r@ == reply_text(reply@),
{
    let t = trim_chars(&to_chars(reply));
    if t.len() > 0 {
        from_chars(&t)
    } else {
        "(empty response)".to_owned()
    }
}

/// What is remembered of a chat message: `<role>: <text>`, under a key that
/// starts with `pb_chat_<role>_`.  Nothing is remembered of an empty one.
pub open spec fn memory_payload(role: Seq<char>, content: Seq<char>) -> Option<Seq<char>> {
    if trim(content).len() > 0 {
        Some(role + ": "@ + trim(content))
    } else {
        None
    }
}

pub fn chat_memory_payload(role: &str, content: &str) -> (r: Option<String>)
    ensures
        match r {
            Some(p) => memory_payload(role@, content@) == Some(p@),
            None => memory_payload(role@, content@).is_none(),
        },
{
    let t = trim_chars(&to_chars(content));
    if t.len() == 0 {
        return None;
    }
    let mut out = to_chars(role);
    extend_str(&mut out, ": ");
    extend_chars(&mut out, &t);
    Some(from_chars(&out))
}

/// The key under which a chat message is remembered: `pb_chat_<role>_` and
/// a fresh identifier.
pub fn chat_memory_key(role: &str) -> (r: String)
    ensures
        crate::channels::is_key_with_identifier(r@, "pb_chat_"@ + role@ + "_"@),
        r@.len() == ("pb_chat_"@ + role@ + "_"@).len() + 36,
        r@.subrange(0, ("pb_chat_"@ + role@ + "_"@).len() as int) == "pb_chat_"@ + role@ + "_"@,
{
    let mut prefix = to_chars("pb_chat_");
    extend_str(&mut prefix, role);
    extend_str(&mut prefix, "_");
    crate::channels::unique_memory_key(from_chars(&prefix).as_str())
}

/// A change of a record's status.
#[derive(Debug)]
pub struct StatusPatch {
    pub status: String,
    pub error: Option<String>,
    pub processed_at: Option<String>,
}

/// A record to be created.
#[derive(Debug)]
pub struct RecordDraft {
    pub thread_id: String,
    pub role: String,
    pub content: String,
    pub status: String,
    pub source: String,
    pub reply_to_id: String,
    pub error: Option<String>,
    pub created_at_client: String,
    pub processed_at: String,
}

/// One write to the chat store.
#[derive(Debug)]
pub enum Write {
    Patch { id: String, patch: StatusPatch },
    Create(RecordDraft),
}

/// A write and whether the tick ends if it fails.
#[derive(Debug)]
pub struct Effect {
    pub write: Write,
    pub required: bool,
}

/// How the work on a record ended.
#[derive(Debug)]
pub enum Outcome {
    /// The reminder was scheduled as this job, to run at this time.
    ReminderScheduled { job_id: String, run_at: String, delay_human: String },
    /// The reminder could not be scheduled.
    ReminderFailed { error: String },
    /// The assistant answered.
    Answered { reply: String },
    /// The assistant failed.
    AssistantFailed { error: String },
}

/// The claim of a record: its status becomes `processing` and its error is
/// cleared.  The tick ends if the claim fails.
pub fn claim(record: &ChatRecord) -> (r: Effect)
    ensures
        r.required,
        r.write matches Write::Patch { id, patch } && id@ == record.id@ && patch.status@
            == "processing"@ && (patch.error matches Some(e) && e@.len() == 0)
            && patch.processed_at.is_none(),
{
    Effect {
        write: Write::Patch {
            id: record.id.clone(),
            patch: StatusPatch {
                status: "processing".to_owned(),
                error: Some(String::new()),
                processed_at: None,
            },
        },
        required: true,
    }
}

/// The rejection of an empty message: the record's status becomes `error`.
pub fn reject_empty(record: &ChatRecord, now: &str) -> (r: Effect)
    ensures
        r.required,
        r.write matches Write::Patch { id, patch } && id@ == record.id@ && patch.status@ == "error"@
            && (patch.error matches Some(e) && e@ == "Empty message"@) && (
        patch.processed_at matches Some(t) && t@ == now@),
{
    Effect {
        write: Write::Patch {
            id: record.id.clone(),
            patch: StatusPatch {
                status: "error".to_owned(),
                error: Some("Empty message".to_owned()),
                processed_at: Some(now.to_owned()),
            },
        },
        required: true,
    }
}

/// Whether an outcome is a success.
pub open spec fn succeeded(outcome: Outcome) -> bool {
    outcome is ReminderScheduled || outcome is Answered
}

/// The source named in the assistant's record.
pub open spec fn source_of(outcome: Outcome) -> Seq<char> {
    if outcome is ReminderScheduled || outcome is ReminderFailed {
        "slowclaw-reminder"@
    } else {
        "slowclaw"@
    }
}

/// The content of the assistant's record.
pub open spec fn content_for(outcome: Outcome) -> Seq<char> {
    match outcome {
        Outcome::ReminderScheduled { job_id, run_at, delay_human } => confirmation_text(
            run_at@,
            delay_human@,
            job_id@,
        ),
        Outcome::Answered { reply } => reply_text(reply@),
        _ => Seq::empty(),
    }
}

/// The error written back for a failure, cut to `MAX_ERROR_CHARS`.
pub open spec fn error_for(outcome: Outcome) -> Option<Seq<char>> {
    match outcome {
        Outcome::ReminderFailed { error } => Some(truncated(error@, MAX_ERROR_CHARS as nat)),
        Outcome::AssistantFailed { error } => Some(truncated(error@, MAX_ERROR_CHARS as nat)),
        _ => None,
    }
}

/// What is written once the work on a record has ended: first the
/// assistant's record, answering the user's, then the final status of the
/// user's record.  A success writes `done` twice and must get its record
/// written; a failure writes `error` twice, with the error text, and goes on
/// to the final status even if its record cannot be written.  The final
/// status must always be written.
pub fn conclude(record: &ChatRecord, outcome: Outcome, now: &str) -> (r: Vec<Effect>)
    ensures
        r@.len() == 2,
        r@[0].required == succeeded(outcome),
        r@[1].required,
        r@[0].write matches Write::Create(draft) && {
            &&& draft.thread_id@ == thread_name(record.thread_id)
            &&& draft.role@ == "assistant"@
            &&& draft.content@ == content_for(outcome)
            &&& draft.status@ == if succeeded(outcome) {
                "done"@
            } else {
                "error"@
            }
            &&& draft.source@ == source_of(outcome)
            &&& draft.reply_to_id@ == record.id@
            &&& crate::admission::text_of(draft.error) == error_for(outcome)
            &&& draft.created_at_client@ == now@
            &&& draft.processed_at@ == now@
        },
        r@[1].write matches Write::Patch { id, patch } && {
            &&& id@ == record.id@
            &&& patch.status@ == if succeeded(outcome) {
                "done"@
            } else {
                "error"@
            }
            &&& crate::admission::text_of(patch.error) == error_for(outcome)
            &&& patch.processed_at matches Some(t) && t@ == now@
        },
{
    let thread_id = thread_of(record);
    let (ok, source, content, error): (bool, &'static str, String, Option<String>) = match &outcome {
        Outcome::ReminderScheduled { job_id, run_at, delay_human } => (
            true,
            "slowclaw-reminder",
            reminder_confirmation(run_at.as_str(), delay_human.as_str(), job_id.as_str()),
            None,
        ),
        Outcome::ReminderFailed { error } => (
            false,
            "slowclaw-reminder",
            String::new(),
            Some(truncate_with_ellipsis(error.as_str(), MAX_ERROR_CHARS)),
        ),
        Outcome::Answered { reply } => (true, "slowclaw", reply_content(reply.as_str()), None),
        Outcome::AssistantFailed { error } => (
            false,
            "slowclaw",
            String::new(),
            Some(truncate_with_ellipsis(error.as_str(), MAX_ERROR_CHARS)),
        ),
    };
    let status: &'static str = if ok {
        "done"
    } else {
        "error"
    };
    let patch_error = match &error {
        Some(e) => Some(e.clone()),
        None => None,
    };
    let mut r: Vec<Effect> = Vec::new();
    r.push(
        Effect {
            write: Write::Create(
                RecordDraft {
                    thread_id,
                    role: "assistant".to_owned(),
                    content,
                    status: status.to_owned(),
                    source: source.to_owned(),
                    reply_to_id: record.id.clone(),
                    error,
                    created_at_client: now.to_owned(),
                    processed_at: now.to_owned(),
                },
            ),
            required: ok,
        },
    );
    r.push(
        Effect {
            write: Write::Patch {
                id: record.id.clone(),
                patch: StatusPatch {
                    status: status.to_owned(),
                    error: patch_error,
                    processed_at: Some(now.to_owned()),
                },
            },
            required: true,
        },
    );
    r
}

/// The record that the chat surface writes for a user's message.
pub fn user_message_draft(thread_id: &str, content: &str, now: &str) -> (r: Option<RecordDraft>)
    ensures
        match r {
            Some(draft) => {
                &&& trim(thread_id@).len() > 0
                &&& trim(content@).len() > 0
                &&& draft.thread_id@ == trim(thread_id@)
                &&& draft.content@ == trim(content@)
                &&& draft.role@ == "user"@
                &&& draft.status@ == "pending"@
                &&& draft.source@ == "gateway-ui"@
                &&& draft.created_at_client@ == now@
                &&& draft.error.is_none()
                &&& draft.reply_to_id@.len() == 0
                &&& draft.processed_at@.len() == 0
            },
            None => trim(thread_id@).len() == 0 || trim(content@).len() == 0,
        },
{
    let thread = trim_chars(&to_chars(thread_id));
    let text = trim_chars(&to_chars(content));
    if thread.len() == 0 || text.len() == 0 {
        return None;
    }
    Some(
        RecordDraft {
            thread_id: from_chars(&thread),
            role: "user".to_owned(),
            content: from_chars(&text),
            status: "pending".to_owned(),
            source: "gateway-ui".to_owned(),
            reply_to_id: String::new(),
            error: None,
            created_at_client: now.to_owned(),
            processed_at: String::new(),
        },
    )
}

/// The first of two settings that is given, trimmed, and nothing where that
/// leaves nothing.
pub fn resolve_token(primary: Option<&str>, secondary: Option<&str>) -> (r: Option<String>)
    ensures
        ({
            let chosen = match primary {
                Some(v) => Some(v@),
                None => match secondary {
                    Some(v) => Some(v@),
                    None => None,
                },
            };
            match r {
                Some(token) => chosen matches Some(v) && token@ == trim(v) && token@.len() > 0,
                None => match chosen {
                    Some(v) => trim(v).len() == 0,
                    None => true,
                },
            }
        }),
{
    let chosen = match primary {
        Some(v) => v,
        None => match secondary {
            Some(v) => v,
            None => {
                return None;
            },
        },
    };
    let t = trim_chars(&to_chars(chosen));
    if t.len() > 0 {
        Some(from_chars(&t))
    } else {
        None
    }
}

/// How the chat store is reached as a channel.
#[derive(Debug)]
pub struct ChannelSettings {
    pub base_url: String,
    pub collection: String,
    pub token: Option<String>,
    pub poll_ms: u64,
}

/// What is wrong with the settings of the chat channel, if anything.
pub open spec fn settings_fault(base_url: Seq<char>, collection: Seq<char>) -> Option<Seq<char>> {
    if base_url_of(base_url).len() == 0 {
        Some("PocketBase base URL is empty"@)
    } else if trim(collection).len() == 0 {
        Some("PocketBase collection is empty"@)
    } else {
        None
    }
}

/// Checks and normalises the settings of the chat channel: the base URL and
/// the collection must not be empty; a token of whitespace counts as none.
pub fn channel_settings(
    base_url: &str,
    collection: &str,
    token: Option<&str>,
    poll_setting: Option<&str>,
) -> (r: Result<ChannelSettings, String>)
    ensures
        match r {
            Ok(settings) => {
                &&& settings_fault(base_url@, collection@).is_none()
                &&& settings.base_url@ == base_url_of(base_url@)
                &&& settings.collection@ == trim(collection@)
                &&& match settings.token {
                    Some(t) => token matches Some(v) && t@ == trim(v@) && t@.len() > 0,
                    None => match token {
                        Some(v) => trim(v@).len() == 0,
                        None => true,
                    },
                }
                &&& settings.poll_ms == poll_interval(
                    match poll_setting {
                        Some(v) => Some(v@),
                        None => None,
                    },
                )
            },
            Err(e) => settings_fault(base_url@, collection@) == Some(e@),
        },
{
    let url = match resolve_base_url(Some(base_url), None, None) {
        Some(url) => url,
        None => {
            return Err("PocketBase base URL is empty".to_owned());
        },
    };
    let name = trim_chars(&to_chars(collection));
    if name.len() == 0 {
        return Err("PocketBase collection is empty".to_owned());
    }
    Ok(
        ChannelSettings {
            base_url: url,
            collection: from_chars(&name),
            token: resolve_token(token, None),
            poll_ms: poll_interval_ms(poll_setting),
        },
    )
}

/// The record that the channel writes for a reply: into the thread named by
/// the recipient, as the assistant, done.  A reply without a recipient is an
/// error.
pub fn channel_reply_draft(recipient: &str, content: &str, reply_to: Option<&str>, now: &str) -> (r:
    Result<RecordDraft, String>)
    ensures
        match r {
            Ok(draft) => {
                &&& trim(recipient@).len() > 0
                &&& draft.thread_id@ == trim(recipient@)
                &&& draft.role@ == "assistant"@
                &&& draft.content@ == trim(content@)
                &&& draft.status@ == "done"@
                &&& draft.source@ == "slowclaw-channel"@
                &&& draft.reply_to_id@ == match reply_to {
                    Some(id) => id@,
                    None => Seq::empty(),
                }
                &&& draft.error.is_none()
                &&& draft.created_at_client@ == now@
                &&& draft.processed_at@ == now@
            },
            Err(e) => trim(recipient@).len() == 0 && e@
                == "PocketBase channel recipient (threadId) is required"@,
        },
{
    let thread = trim_chars(&to_chars(recipient));
    if thread.len() == 0 {
        return Err("PocketBase channel recipient (threadId) is required".to_owned());
    }
    Ok(
        RecordDraft {
            thread_id: from_chars(&thread),
            role: "assistant".to_owned(),
            content: from_chars(&trim_chars(&to_chars(content))),
            status: "done".to_owned(),
            source: "slowclaw-channel".to_owned(),
            reply_to_id: match reply_to {
                Some(id) => id.to_owned(),
                None => String::new(),
            },
            error: None,
            created_at_client: now.to_owned(),
            processed_at: now.to_owned(),
        },
    )
}

/// The message that the channel hands on for a waiting record: sent by the
/// record's source, or by `pocketbase-user`, and answered into the record's
/// thread.  A record without text gives none.
pub fn channel_message(record: &ChatRecord, source: Option<&str>, timestamp: u64) -> (r: Option<
    crate::channels::ChannelMessage,
>)
    ensures
        match r {
            Some(msg) => {
                &&& trim(content_of(record.content)).len() > 0
                &&& msg.id@ == record.id@
                &&& msg.sender@ == match source {
                    Some(s) => s@,
                    None => "pocketbase-user"@,
                }
                &&& msg.reply_target@ == thread_name(record.thread_id)
                &&& msg.content@ == content_of(record.content)
                &&& msg.channel@ == "pocketbase"@
                &&& msg.timestamp == timestamp
                &&& msg.thread_ts matches Some(t) && t@ == thread_name(record.thread_id)
            },
            None => trim(content_of(record.content)).len() == 0,
        },
{
    let content: &str = match &record.content {
        Some(c) => c.as_str(),
        None => "",
    };
    proof {
        if record.content.is_none() {
            reveal_strlit("");
            assert(""@ =~= Seq::<char>::empty());
        }
    }
    if trim_chars(&to_chars(content)).len() == 0 {
        return None;
    }
    Some(
        crate::channels::ChannelMessage {
            id: record.id.clone(),
            sender: match source {
                Some(s) => s.to_owned(),
                None => "pocketbase-user".to_owned(),
            },
            reply_target: thread_of(record),
            content: content.to_owned(),
            channel: "pocketbase".to_owned(),
            timestamp,
            thread_ts: Some(thread_of(record)),
        },
    )
}

/// A change of status as the channel writes it: with the time, and with the
/// error text or an empty one.
pub fn status_patch(status: &str, error: Option<&str>, now: &str) -> (r: StatusPatch)
    ensures
        r.status@ == status@,
        r.error matches Some(e) && e@ == match error {
            Some(text) => text@,
            None => Seq::empty(),
        },
        r.processed_at matches Some(t) && t@ == now@,
{
    StatusPatch {
        status: status.to_owned(),
        error: Some(
            match error {
                Some(text) => text.to_owned(),
                None => String::new(),
            },
        ),
        processed_at: Some(now.to_owned()),
    }
}

} // verus!
