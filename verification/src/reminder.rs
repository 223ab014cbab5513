//! Recognising reminder requests in chat messages.
//!
//! Three forms are understood, tried in this order: the `/remind` command,
//! a sentence with "remind me ... in <delay>", and a sentence with
//! "reminder ... in <delay>".

use crate::text::{
    ascii_lower, chars_eq, contains, contains_chars, count_leading_digits, count_leading_letters,
    decimal, digits_value, extend_str, find, find_chars, from_chars, is_ascii_alphabetic,
    is_ascii_digit, leading, lemma_leading, lemma_trailing_unique, parse_digits, push_decimal, rfind,
    rfind_chars, slice_chars, starts_with, starts_with_chars, strip_trailing, to_ascii_lowercase,
    to_chars, trim, trim_chars, trim_start, trim_start_chars,
};
use vstd::prelude::*;

verus! {

/// The longest delay a reminder can carry, in seconds: what a scheduler time
/// counted in milliseconds can hold.
pub const MAX_DELAY_SECS: u64 = 9_223_372_036_854_775;

/// A delay read from the start of a text.
pub struct Delay {
    pub secs: int,
    pub human: Seq<char>,
    pub rest: Seq<char>,
}

/// The seconds in one unit and the unit's singular label, for each spelling
/// that is understood.
pub open spec fn unit_of(unit: Seq<char>) -> Option<(int, Seq<char>)> {
    if unit == "s"@ || unit == "sec"@ || unit == "secs"@ || unit == "second"@ || unit
        == "seconds"@ {
        Some((1, "second"@))
    } else if unit == "m"@ || unit == "min"@ || unit == "mins"@ || unit == "minute"@ || unit
        == "minutes"@ {
        Some((60, "minute"@))
    } else if unit == "h"@ || unit == "hr"@ || unit == "hrs"@ || unit == "hour"@ || unit
        == "hours"@ {
        Some((3600, "hour"@))
    } else if unit == "d"@ || unit == "day"@ || unit == "days"@ {
        Some((86400, "day"@))
    } else {
        None
    }
}

/// The label of a delay: the amount, the unit, and an `s` unless the amount
/// is one.
pub open spec fn human_label(amount: nat, label: Seq<char>) -> Seq<char> {
    decimal(amount) + " "@ + label + if amount == 1 {
        ""@
    } else {
        "s"@
    }
}

/// A delay at the start of `input`: digits, optional whitespace, a unit.
/// The amount must be positive and fit an `i64`, and the delay must not
/// exceed `MAX_DELAY_SECS`.
pub open spec fn leading_delay(input: Seq<char>) -> Option<Delay> {
    let s = trim_start(input);
    let n = leading(s, |c: char| is_ascii_digit(c));
    let amount = digits_value(s.take(n as int));
    let after = trim_start(s.skip(n as int));
    let u = leading(after, |c: char| is_ascii_alphabetic(c));
    if n == 0 || amount == 0 || amount > i64::MAX || u == 0 {
        None
    } else {
        match unit_of(ascii_lower(after.take(u as int))) {
            None => None,
            Some((per, label)) => if amount * per > MAX_DELAY_SECS {
                None
            } else {
                Some(
                    Delay {
                        secs: amount * per,
                        human: human_label(amount, label),
                        rest: trim_start(after.skip(u as int)),
                    },
                )
            },
        }
    }
}

fn unit_lookup(unit: &Vec<char>) -> (r: Option<(u64, &'static str)>)
    ensures
        match r {
            Some((per, label)) => unit_of(unit@) == Some((per as int, label@)) && 1 <= per <= 86400,
            None => unit_of(unit@).is_none(),
        },
{
    if chars_eq(unit, &to_chars("s")) || chars_eq(unit, &to_chars("sec")) || chars_eq(
        unit,
        &to_chars("secs"),
    ) || chars_eq(unit, &to_chars("second")) || chars_eq(unit, &to_chars("seconds")) {
        Some((1, "second"))
    } else if chars_eq(unit, &to_chars("m")) || chars_eq(unit, &to_chars("min")) || chars_eq(
        unit,
        &to_chars("mins"),
    ) || chars_eq(unit, &to_chars("minute")) || chars_eq(unit, &to_chars("minutes")) {
        Some((60, "minute"))
    } else if chars_eq(unit, &to_chars("h")) || chars_eq(unit, &to_chars("hr")) || chars_eq(
        unit,
        &to_chars("hrs"),
    ) || chars_eq(unit, &to_chars("hour")) || chars_eq(unit, &to_chars("hours")) {
        Some((3600, "hour"))
    } else if chars_eq(unit, &to_chars("d")) || chars_eq(unit, &to_chars("day")) || chars_eq(
        unit,
        &to_chars("days"),
    ) {
        Some((86400, "day"))
    } else {
        None
    }
}

/// Reads a delay from the start of `input`: its length in seconds, its label
/// and the text that follows it.
pub fn parse_leading_delay(input: &Vec<char>) -> (r: Option<(u64, Vec<char>, Vec<char>)>)
    ensures
        match r {
            Some((secs, human, rest)) => leading_delay(input@) == Some(
                Delay { secs: secs as int, human: human@, rest: rest@ },
            ) && 1 <= secs <= MAX_DELAY_SECS,
            None => leading_delay(input@).is_none(),
        },
{
    let s = trim_start_chars(input);
    let n = count_leading_digits(&s);
    if n == 0 {
        return None;
    }
    let digits = slice_chars(&s, 0, n);
    proof {
        lemma_leading(s@, |c: char| is_ascii_digit(c));
        assert(digits@ == s@.take(n as int));
        assert forall|i: int| 0 <= i < digits.len() implies is_ascii_digit(#[trigger] digits@[i]) by {
            assert(digits@[i] == s@[i]);
        }
    }
    let amount: u64 = match parse_digits(&digits) {
        Some(a) => a,
        None => {
            return None;
        },
    };
    if amount == 0 || amount > 0x7fff_ffff_ffff_ffff {
        return None;
    }
    let after_raw = slice_chars(&s, n, s.len());
    assert(after_raw@ == s@.skip(n as int));
    let after = trim_start_chars(&after_raw);
    let u = count_leading_letters(&after);
    if u == 0 {
        return None;
    }
    let unit_raw = slice_chars(&after, 0, u);
    assert(unit_raw@ == after@.take(u as int));
    let rest_raw = slice_chars(&after, u, after.len());
    assert(rest_raw@ == after@.skip(u as int));
    let rest = trim_start_chars(&rest_raw);
    let unit = to_ascii_lowercase(&unit_raw);
    let (per, label) = match unit_lookup(&unit) {
        Some(found) => found,
        None => {
            return None;
        },
    };
    if amount > MAX_DELAY_SECS / per {
        assert(amount * per > MAX_DELAY_SECS) by (nonlinear_arith)
            requires
                amount > MAX_DELAY_SECS / per,
                per >= 1,
        ;
        return None;
    }
    assert(amount * per <= MAX_DELAY_SECS) by (nonlinear_arith)
        requires
            amount <= MAX_DELAY_SECS / per,
            per >= 1,
    ;
    assert(amount * per >= 1) by (nonlinear_arith)
        requires
            amount >= 1,
            per >= 1,
    ;
    let secs: u64 = amount * per;
    let mut human: Vec<char> = Vec::new();
    push_decimal(&mut human, amount);
    extend_str(&mut human, " ");
    extend_str(&mut human, label);
    if amount == 1 {
        extend_str(&mut human, "");
    } else {
        extend_str(&mut human, "s");
    }
    assert(human@ =~= human_label(amount as nat, label@));
    Some((secs, human, rest))
}

pub open spec fn is_closing_punctuation(c: char) -> bool {
    c == '.' || c == '!' || c == '?' || c == ',' || c == ';'
}

/// `text` without a leading "about " or "to ", in any letter case, and
/// without the whitespace that follows it.  Only the first that fits is
/// removed.
pub open spec fn without_topic_prefix(text: Seq<char>) -> Seq<char> {
    let about = "about "@;
    let to = "to "@;
    if text.len() >= about.len() && ascii_lower(text.take(about.len() as int)) == ascii_lower(
        about,
    ) {
        trim(text.skip(about.len() as int))
    } else if text.len() >= to.len() && ascii_lower(text.take(to.len() as int)) == ascii_lower(to) {
        trim(text.skip(to.len() as int))
    } else {
        text
    }
}

/// The message of a reminder as it is kept: trimmed, without a leading
/// "about " or "to ", and without closing punctuation.
pub open spec fn normalized_message(raw: Seq<char>) -> Seq<char> {
    let text = trim(raw);
    if text.len() == 0 {
        Seq::empty()
    } else {
        trim(strip_trailing(without_topic_prefix(text), |c: char| is_closing_punctuation(c)))
    }
}

fn strip_topic_prefix(text: Vec<char>) -> (r: Vec<char>)
    ensures
        r@ == without_topic_prefix(text@),
{
    let about = to_chars("about ");
    let to = to_chars("to ");
    if text.len() >= about.len() {
        let start = slice_chars(&text, 0, about.len());
        assert(start@ == text@.take(about.len() as int));
        if chars_eq(&to_ascii_lowercase(&start), &to_ascii_lowercase(&about)) {
            let tail = slice_chars(&text, about.len(), text.len());
            assert(tail@ == text@.skip(about.len() as int));
            return trim_chars(&tail);
        }
    }
    if text.len() >= to.len() {
        let start = slice_chars(&text, 0, to.len());
        assert(start@ == text@.take(to.len() as int));
        if chars_eq(&to_ascii_lowercase(&start), &to_ascii_lowercase(&to)) {
            let tail = slice_chars(&text, to.len(), text.len());
            assert(tail@ == text@.skip(to.len() as int));
            return trim_chars(&tail);
        }
    }
    text
}

fn char_is_closing_punctuation(c: char) -> (r: bool)
    ensures
        r == is_closing_punctuation(c),
{
    c == '.' || c == '!' || c == '?' || c == ',' || c == ';'
}

/// Normalises the message of a reminder.
pub fn normalize_message_chars(raw: &Vec<char>) -> (r: Vec<char>)
    ensures
        r@ == normalized_message(raw@),
{
    let text = trim_chars(raw);
    if text.len() == 0 {
        return Vec::new();
    }
    let body = strip_topic_prefix(text);
    let ghost p = |c: char| is_closing_punctuation(c);
    let mut b: usize = body.len();
    while b > 0 && char_is_closing_punctuation(body[b - 1])
        invariant
            b <= body.len(),
            forall|c: char| p(c) == is_closing_punctuation(c),
            forall|i: int| b <= i < body.len() ==> p(#[trigger] body@[i]),
        decreases b,
    {
        b = b - 1;
    }
    proof {
        lemma_trailing_unique(body@, p, body.len() - b);
    }
    let cut = slice_chars(&body, 0, b);
    assert(cut@ == body@.take(b as int));
    trim_chars(&cut)
}

/// Normalises the message of a reminder: trims it, drops a leading "about "
/// or "to " and closing punctuation.
pub fn normalize_reminder_message(raw: &str) -> (r: String)
    ensures
        r@ == normalized_message(raw@),
{
    let chars = to_chars(raw);
    from_chars(&normalize_message_chars(&chars))
}

/// A recognised reminder request.
pub struct Intent {
    pub message: Seq<char>,
    pub delay_secs: int,
    pub delay_human: Seq<char>,
}

/// A recognised reminder request: what to say, after how many seconds, and
/// the delay in words.
#[derive(Debug, Clone)]
pub struct ReminderIntent {
    pub message: String,
    pub delay_secs: u64,
    pub delay_human: String,
}

impl View for ReminderIntent {
    type V = Intent;

    open spec fn view(&self) -> Intent {
        Intent {
            message: self.message@,
            delay_secs: self.delay_secs as int,
            delay_human: self.delay_human@,
        }
    }
}

/// The intent made of a delay and a message; none where the message is empty.
pub open spec fn intent_of(delay: Delay, message: Seq<char>) -> Option<Intent> {
    if message.len() == 0 {
        None
    } else {
        Some(Intent { message, delay_secs: delay.secs, delay_human: delay.human })
    }
}

/// The `/remind <delay> <message>` command, in any letter case.
pub open spec fn slash_intent(input: Seq<char>) -> Option<Intent> {
    let t = trim(input);
    if !starts_with(ascii_lower(t), "/remind "@) {
        None
    } else {
        match leading_delay(trim(t.skip("/remind "@.len() as int))) {
            None => None,
            Some(d) => intent_of(d, normalized_message(d.rest)),
        }
    }
}

/// "... remind me <message> in <delay> ...": the delay follows the last
/// " in "; the message is what stands between "remind me" and that " in ",
/// or else what follows the delay.
pub open spec fn natural_intent(input: Seq<char>) -> Option<Intent> {
    let t = trim(input);
    let lower = ascii_lower(t);
    match (find(lower, "remind me"@), rfind(lower, " in "@)) {
        (Some(pos), Some(in_pos)) => {
            let end = pos + "remind me"@.len();
            let head = trim(t.take(in_pos));
            match leading_delay(trim(t.skip(in_pos + " in "@.len()))) {
                None => None,
                Some(d) => {
                    let first = if head.len() >= end {
                        normalized_message(head.skip(end))
                    } else {
                        normalized_message(trim(t.skip(end)))
                    };
                    intent_of(
                        d,
                        if first.len() > 0 {
                            first
                        } else {
                            normalized_message(d.rest)
                        },
                    )
                },
            }
        },
        _ => None,
    }
}

/// The phrases after which the message of a "reminder" sentence begins, in
/// the order they are tried.
pub open spec fn reminder_markers() -> Seq<Seq<char>> {
    seq![
        "set a reminder to"@,
        "set a reminder for"@,
        "set reminder to"@,
        "set reminder for"@,
        "reminder to"@,
        "reminder for"@,
    ]
}

/// What follows, inside `head`, the first marker that occurs early enough;
/// all of `head` where none does.
pub open spec fn after_marker(lower: Seq<char>, head: Seq<char>, markers: Seq<Seq<char>>) -> Seq<
    char,
>
    decreases markers.len(),
{
    if markers.len() == 0 {
        head
    } else {
        match find(lower, markers[0]) {
            Some(pos) if pos + markers[0].len() <= head.len() => head.skip(pos + markers[0].len()),
            _ => after_marker(lower, head, markers.drop_first()),
        }
    }
}

/// "... reminder ... in <delay> ...": the delay follows the last " in ";
/// the message is what follows a marker phrase before that " in ", or all
/// that stands before it, or else what follows the delay.
pub open spec fn set_intent(input: Seq<char>) -> Option<Intent> {
    let t = trim(input);
    let lower = ascii_lower(t);
    if !contains(lower, "reminder"@) {
        None
    } else {
        match rfind(lower, " in "@) {
            None => None,
            Some(in_pos) => {
                let head = trim(t.take(in_pos));
                match leading_delay(trim(t.skip(in_pos + " in "@.len()))) {
                    None => None,
                    Some(d) => {
                        let first = normalized_message(after_marker(lower, head, reminder_markers()));
                        intent_of(
                            d,
                            if first.len() > 0 {
                                first
                            } else {
                                normalized_message(d.rest)
                            },
                        )
                    },
                }
            },
        }
    }
}

/// The reminder that a chat message asks for, if any: the first of the three
/// forms that recognises it.
pub open spec fn reminder_intent(input: Seq<char>) -> Option<Intent> {
    if slash_intent(input).is_some() {
        slash_intent(input)
    } else if natural_intent(input).is_some() {
        natural_intent(input)
    } else {
        set_intent(input)
    }
}

fn build_intent(secs: u64, human: &Vec<char>, message: &Vec<char>) -> (r: Option<ReminderIntent>)
    ensures
        match r {
            Some(i) => intent_of(
                Delay { secs: secs as int, human: human@, rest: Seq::empty() },
                message@,
            ) == Some(i@),
            None => message@.len() == 0,
        },
{
    if message.len() == 0 {
        None
    } else {
        Some(
            ReminderIntent {
                message: from_chars(message),
                delay_secs: secs,
                delay_human: from_chars(human),
            },
        )
    }
}

/// Recognises the `/remind` command.
pub fn parse_slash_reminder_intent(input: &str) -> (r: Option<ReminderIntent>)
    ensures
        match r {
            Some(i) => slash_intent(input@) == Some(i@),
            None => slash_intent(input@).is_none(),
        },
{
    let raw = to_chars(input);
    let t = trim_chars(&raw);
    let lower = to_ascii_lowercase(&t);
    let command = to_chars("/remind ");
    if !starts_with_chars(&lower, &command) {
        return None;
    }
    assert(command.len() <= t.len());
    let tail = slice_chars(&t, command.len(), t.len());
    assert(tail@ == t@.skip(command.len() as int));
    let rest = trim_chars(&tail);
    match parse_leading_delay(&rest) {
        None => None,
        Some((secs, human, remainder)) => {
            let message = normalize_message_chars(&remainder);
            build_intent(secs, &human, &message)
        },
    }
}

/// Recognises "remind me ... in <delay>".
pub fn parse_natural_language_reminder_intent(input: &str) -> (r: Option<ReminderIntent>)
    ensures
        match r {
            Some(i) => natural_intent(input@) == Some(i@),
            None => natural_intent(input@).is_none(),
        },
{
    let raw = to_chars(input);
    let t = trim_chars(&raw);
    let lower = to_ascii_lowercase(&t);
    let phrase = to_chars("remind me");
    let sep = to_chars(" in ");
    let pos = match find_chars(&lower, &phrase) {
        Some(p) => p,
        None => {
            return None;
        },
    };
    assert(pos + phrase.len() <= lower.len());
    let end = pos + phrase.len();
    let in_pos = match rfind_chars(&lower, &sep) {
        Some(p) => p,
        None => {
            return None;
        },
    };
    let head_raw = slice_chars(&t, 0, in_pos);
    assert(head_raw@ == t@.take(in_pos as int));
    let head = trim_chars(&head_raw);
    let tail_raw = slice_chars(&t, in_pos + sep.len(), t.len());
    assert(tail_raw@ == t@.skip(in_pos + sep.len()));
    let tail = trim_chars(&tail_raw);
    match parse_leading_delay(&tail) {
        None => None,
        Some((secs, human, remainder)) => {
            let mut message = if head.len() >= end {
                let part = slice_chars(&head, end, head.len());
                assert(part@ == head@.skip(end as int));
                normalize_message_chars(&part)
            } else {
                let part = slice_chars(&t, end, t.len());
                assert(part@ == t@.skip(end as int));
                normalize_message_chars(&trim_chars(&part))
            };
            if message.len() == 0 {
                message = normalize_message_chars(&remainder);
            }
            build_intent(secs, &human, &message)
        },
    }
}

fn marker_list() -> (r: Vec<Vec<char>>)
    ensures
        r@.map_values(|m: Vec<char>| m@) == reminder_markers(),
{
    let mut r: Vec<Vec<char>> = Vec::new();
    r.push(to_chars("set a reminder to"));
    r.push(to_chars("set a reminder for"));
    r.push(to_chars("set reminder to"));
    r.push(to_chars("set reminder for"));
    r.push(to_chars("reminder to"));
    r.push(to_chars("reminder for"));
    assert(r@.map_values(|m: Vec<char>| m@) =~= reminder_markers());
    r
}

fn message_after_marker(lower: &Vec<char>, head: &Vec<char>) -> (r: Vec<char>)
    ensures
        r@ == after_marker(lower@, head@, reminder_markers()),
{
    let markers = marker_list();
    let ghost all = markers@.map_values(|m: Vec<char>| m@);
    let mut i: usize = 0;
    assert(all.skip(0) =~= all);
    while i < markers.len()
        invariant
            i <= markers.len(),
            all == markers@.map_values(|m: Vec<char>| m@),
            all == reminder_markers(),
            after_marker(lower@, head@, all) == after_marker(lower@, head@, all.skip(i as int)),
        decreases markers.len() - i,
    {
        let marker = &markers[i];
        proof {
            assert(all.skip(i as int)[0] == marker@);
            assert(all.skip(i as int).drop_first() =~= all.skip(i + 1));
        }
        match find_chars(lower, marker) {
            Some(pos) => {
                if pos <= head.len() && marker.len() <= head.len() - pos {
                    let part = slice_chars(head, pos + marker.len(), head.len());
                    assert(part@ == head@.skip(pos + marker.len()));
                    assert(after_marker(lower@, head@, all.skip(i as int)) == head@.skip(
                        pos + marker.len(),
                    ));
                    return part;
                }
            },
            None => {},
        }
        assert(after_marker(lower@, head@, all.skip(i as int)) == after_marker(
            lower@,
            head@,
            all.skip(i + 1),
        ));
        i = i + 1;
    }
    assert(all.skip(markers.len() as int) =~= Seq::<Seq<char>>::empty());
    slice_chars(head, 0, head.len())
}

/// Recognises "reminder ... in <delay>".
pub fn parse_set_reminder_intent(input: &str) -> (r: Option<ReminderIntent>)
    ensures
        match r {
            Some(i) => set_intent(input@) == Some(i@),
            None => set_intent(input@).is_none(),
        },
{
    let raw = to_chars(input);
    let t = trim_chars(&raw);
    let lower = to_ascii_lowercase(&t);
    let word = to_chars("reminder");
    let sep = to_chars(" in ");
    if !contains_chars(&lower, &word) {
        return None;
    }
    let in_pos = match rfind_chars(&lower, &sep) {
        Some(p) => p,
        None => {
            return None;
        },
    };
    let head_raw = slice_chars(&t, 0, in_pos);
    assert(head_raw@ == t@.take(in_pos as int));
    let head = trim_chars(&head_raw);
    let tail_raw = slice_chars(&t, in_pos + sep.len(), t.len());
    assert(tail_raw@ == t@.skip(in_pos + sep.len()));
    let tail = trim_chars(&tail_raw);
    match parse_leading_delay(&tail) {
        None => None,
        Some((secs, human, remainder)) => {
            let marked = message_after_marker(&lower, &head);
            assert(head@.subrange(0, head.len() as int) =~= head@);
            let mut message = normalize_message_chars(&marked);
            if message.len() == 0 {
                message = normalize_message_chars(&remainder);
            }
            build_intent(secs, &human, &message)
        },
    }
}

/// Recognises a reminder request in a chat message.
pub fn parse_reminder_intent(input: &str) -> (r: Option<ReminderIntent>)
    ensures
        match r {
            Some(i) => reminder_intent(input@) == Some(i@),
            None => reminder_intent(input@).is_none(),
        },
{
    match parse_slash_reminder_intent(input) {
        Some(i) => Some(i),
        None => match parse_natural_language_reminder_intent(input) {
            Some(i) => Some(i),
            None => parse_set_reminder_intent(input),
        },
    }
}

} // verus!
