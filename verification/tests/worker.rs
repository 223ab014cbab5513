use slowclaw::worker::{
    chat_memory_key, chat_memory_payload, claim, collect_pending, conclude, default_chat_collection,
    env_flag, plan_record, poll_interval_ms, record_is_pending_user, reject_empty, reminder_command,
    reminder_confirmation, reminder_delivery, reminder_job_name, reply_content, resolve_base_url,
    shell_single_quote, take_batch, thread_of, truncate_with_ellipsis, user_message_draft,
    wants_next_page, ChatRecord, Outcome, Plan, Write, DEFAULT_POLL_MS, FETCH_PAGE_SIZE,
    MAX_ERROR_CHARS, MAX_FETCH_PAGES, MAX_PENDING_PER_POLL, MIN_POLL_MS,
};

fn record(id: &str, role: &str, status: &str, content: &str) -> ChatRecord {
    ChatRecord {
        id: id.into(),
        thread_id: Some("t".into()),
        role: Some(role.into()),
        content: Some(content.into()),
        status: Some(status.into()),
    }
}

fn ids(records: &[ChatRecord]) -> Vec<String> {
    records.iter().map(|r| r.id.clone()).collect()
}

#[test]
fn worker_constants() {
    assert_eq!(default_chat_collection(), "chat_messages");
    assert_eq!(DEFAULT_POLL_MS, 1_500);
    assert_eq!(MIN_POLL_MS, 250);
    assert_eq!(MAX_PENDING_PER_POLL, 8);
    assert_eq!(FETCH_PAGE_SIZE, 30);
    assert_eq!(MAX_FETCH_PAGES, 5);
    assert_eq!(MAX_ERROR_CHARS, 2000);
}

#[test]
fn poll_interval_has_a_floor() {
    assert_eq!(poll_interval_ms(None), 1_500);
    assert_eq!(poll_interval_ms(Some("250")), 250);
    assert_eq!(poll_interval_ms(Some(" 5000 ")), 5_000);
    assert_eq!(poll_interval_ms(Some("249")), 1_500);
    assert_eq!(poll_interval_ms(Some("0")), 1_500);
    assert_eq!(poll_interval_ms(Some("")), 1_500);
    assert_eq!(poll_interval_ms(Some("abc")), 1_500);
    assert_eq!(poll_interval_ms(Some("1e3")), 1_500);
    assert_eq!(poll_interval_ms(Some("-300")), 1_500);
    assert_eq!(poll_interval_ms(Some("99999999999999999999999")), 1_500);
    assert_eq!(poll_interval_ms(Some("18446744073709551615")), u64::MAX);
}

#[test]
fn switches() {
    for on in ["1", "true", "TRUE", " yes ", "On"] {
        assert!(env_flag(Some(on)), "{on}");
    }
    for off in ["0", "false", "", "y", "enabled"] {
        assert!(!env_flag(Some(off)), "{off}");
    }
    assert!(!env_flag(None));
}

#[test]
fn base_url_resolution() {
    assert_eq!(
        resolve_base_url(Some(" http://a:1/ "), Some("http://b"), Some("http://c")),
        Some("http://a:1".to_string())
    );
    assert_eq!(resolve_base_url(None, Some("http://b//"), Some("http://c")), Some("http://b".to_string()));
    assert_eq!(resolve_base_url(None, None, Some("http://c")), Some("http://c".to_string()));
    assert_eq!(resolve_base_url(None, None, None), None);
    // A setting that is present but empty is not skipped.
    assert_eq!(resolve_base_url(Some("  "), None, Some("http://c")), None);
    assert_eq!(resolve_base_url(Some("///"), None, None), None);
}

#[test]
fn pending_user_records() {
    assert!(record_is_pending_user(&record("1", "user", "pending", "x")));
    assert!(!record_is_pending_user(&record("1", "USER", "pending", "x")));
    assert!(!record_is_pending_user(&record("1", "user", "Pending", "x")));
    assert!(!record_is_pending_user(&record("1", "assistant", "pending", "x")));
    assert!(!record_is_pending_user(&record("1", "user", "processing", "x")));
    assert!(!record_is_pending_user(&record("1", "user ", "pending", "x")));
    let mut unknown = record("1", "user", "pending", "x");
    unknown.status = None;
    assert!(!record_is_pending_user(&unknown));
}

#[test]
fn paging_stops_on_a_short_page() {
    assert!(wants_next_page(1, 30));
    assert!(!wants_next_page(1, 29));
    assert!(wants_next_page(4, 30));
    assert!(!wants_next_page(5, 30));
}

#[test]
fn batch_is_reversed_and_capped() {
    let mut collected = Vec::new();
    let page1: Vec<ChatRecord> = (0..6)
        .map(|i| record(&format!("a{i}"), if i % 3 == 0 { "assistant" } else { "user" }, "pending", "x"))
        .collect();
    collect_pending(&mut collected, page1);
    assert_eq!(ids(&collected), vec!["a1", "a2", "a4", "a5"]);
    let page2: Vec<ChatRecord> = (0..7).map(|i| record(&format!("b{i}"), "user", "pending", "x")).collect();
    collect_pending(&mut collected, page2);
    assert_eq!(collected.len(), 11);
    let batch = take_batch(collected);
    assert_eq!(ids(&batch), vec!["b6", "b5", "b4", "b3", "b2", "b1", "b0", "a5"]);
    let small = take_batch(vec![record("1", "user", "pending", "x"), record("2", "user", "pending", "x")]);
    assert_eq!(ids(&small), vec!["2", "1"]);
    assert!(take_batch(vec![]).is_empty());
}

#[test]
fn thread_names() {
    let mut r = record("1", "user", "pending", "x");
    assert_eq!(thread_of(&r), "t");
    r.thread_id = Some("  spaced  ".into());
    assert_eq!(thread_of(&r), "spaced");
    r.thread_id = Some("   ".into());
    assert_eq!(thread_of(&r), "default");
    r.thread_id = None;
    assert_eq!(thread_of(&r), "default");
}

#[test]
fn plans() {
    assert!(matches!(plan_record(&record("1", "user", "pending", "   ")), Plan::Reject));
    let mut none = record("1", "user", "pending", "");
    none.content = None;
    assert!(matches!(plan_record(&none), Plan::Reject));
    assert!(matches!(plan_record(&record("1", "user", "pending", "hello")), Plan::Ask));
    match plan_record(&record("1", "user", "pending", "/remind 1m stretch")) {
        Plan::Remind(intent) => {
            assert_eq!(intent.delay_secs, 60);
            assert_eq!(intent.message, "stretch");
            assert_eq!(intent.delay_human, "1 minute");
        }
        other => panic!("unexpected {other:?}"),
    }
}

#[test]
fn shell_quoting() {
    assert_eq!(shell_single_quote("plain"), "'plain'");
    assert_eq!(shell_single_quote(""), "''");
    assert_eq!(shell_single_quote("it's"), "'it'\"'\"'s'");
    assert_eq!(shell_single_quote("''"), "''\"'\"''\"'\"''");
    assert_eq!(shell_single_quote("a \"b\" $c `d`"), "'a \"b\" $c `d`'");
    assert_eq!(reminder_command("  don't forget "), "echo 'Reminder: don'\"'\"'t forget'");
}

#[test]
fn truncation() {
    assert_eq!(truncate_with_ellipsis("short", 10), "short");
    assert_eq!(truncate_with_ellipsis("exactly10!", 10), "exactly10!");
    assert_eq!(truncate_with_ellipsis("hello world and more", 10), "hello w...");
    assert_eq!(truncate_with_ellipsis("hello  world and more", 10), "hello...");
    assert_eq!(truncate_with_ellipsis("héllo wörld", 8), "héllo...");
    assert_eq!(truncate_with_ellipsis("abcdef", 3), "...");
    assert_eq!(truncate_with_ellipsis("abcdef", 2), "ab");
    assert_eq!(truncate_with_ellipsis("abcdef", 0), "");
    let long = "x".repeat(5000);
    let cut = truncate_with_ellipsis(&long, MAX_ERROR_CHARS);
    assert_eq!(cut.chars().count(), 2000);
    assert!(cut.ends_with("..."));
    assert_eq!(reminder_job_name("stretch"), "PB chat reminder: stretch");
    assert_eq!(
        reminder_job_name(&"y".repeat(60)),
        format!("PB chat reminder: {}...", "y".repeat(45))
    );
}

#[test]
fn reminder_delivery_announces_into_the_thread() {
    let d = reminder_delivery("t");
    assert_eq!(d.mode, "announce");
    assert_eq!(d.channel.as_deref(), Some("pocketbase"));
    assert_eq!(d.to.as_deref(), Some("t"));
    assert!(d.best_effort);
}

#[test]
fn replies() {
    assert_eq!(reply_content("  hi  "), "hi");
    assert_eq!(reply_content("   "), "(empty response)");
    assert_eq!(
        reminder_confirmation("2024-03-07T09:06:02+00:00", "1 minute", "job-1"),
        "Scheduled reminder for this chat at 2024-03-07T09:06:02+00:00 (1 minute) [job job-1]. Note: reminders run from the scheduler, so start `slowclaw daemon` (not only `slowclaw gateway`)."
    );
}

#[test]
fn memory_entries() {
    assert_eq!(chat_memory_payload("user", "  hello "), Some("user: hello".to_string()));
    assert_eq!(chat_memory_payload("assistant", "   "), None);
    let key = chat_memory_key("user");
    assert!(key.starts_with("pb_chat_user_"));
    assert_eq!(key.len(), "pb_chat_user_".len() + 36);
    assert_ne!(key, chat_memory_key("user"));
}

#[test]
fn claim_and_rejection() {
    let r = record("rec1", "user", "pending", "");
    let c = claim(&r);
    assert!(c.required);
    match c.write {
        Write::Patch { id, patch } => {
            assert_eq!(id, "rec1");
            assert_eq!(patch.status, "processing");
            assert_eq!(patch.error.as_deref(), Some(""));
            assert!(patch.processed_at.is_none());
        }
        other => panic!("unexpected {other:?}"),
    }
    let e = reject_empty(&r, "now");
    assert!(e.required);
    match e.write {
        Write::Patch { id, patch } => {
            assert_eq!(id, "rec1");
            assert_eq!(patch.status, "error");
            assert_eq!(patch.error.as_deref(), Some("Empty message"));
            assert_eq!(patch.processed_at.as_deref(), Some("now"));
        }
        other => panic!("unexpected {other:?}"),
    }
}

#[test]
fn reminder_path_writes_confirmation_then_done() {
    let r = record("src", "user", "pending", "/remind 1m stretch");
    let effects = conclude(
        &r,
        Outcome::ReminderScheduled {
            job_id: "j1".into(),
            run_at: "2024-03-07T09:06:02+00:00".into(),
            delay_human: "1 minute".into(),
        },
        "2024-03-07T09:05:02+00:00",
    );
    assert_eq!(effects.len(), 2);
    assert!(effects[0].required);
    assert!(effects[1].required);
    match &effects[0].write {
        Write::Create(draft) => {
            assert_eq!(draft.thread_id, "t");
            assert_eq!(draft.role, "assistant");
            assert!(draft.content.contains("Scheduled reminder"));
            assert!(draft.content.contains("1 minute"));
            assert_eq!(draft.status, "done");
            assert_eq!(draft.source, "slowclaw-reminder");
            assert_eq!(draft.reply_to_id, "src");
            assert!(draft.error.is_none());
            assert_eq!(draft.created_at_client, "2024-03-07T09:05:02+00:00");
            assert_eq!(draft.processed_at, "2024-03-07T09:05:02+00:00");
        }
        other => panic!("unexpected {other:?}"),
    }
    match &effects[1].write {
        Write::Patch { id, patch } => {
            assert_eq!(id, "src");
            assert_eq!(patch.status, "done");
            assert!(patch.error.is_none());
            assert_eq!(patch.processed_at.as_deref(), Some("2024-03-07T09:05:02+00:00"));
        }
        other => panic!("unexpected {other:?}"),
    }
}

#[test]
fn failures_write_the_truncated_error() {
    let r = record("src", "user", "pending", "hello");
    let effects = conclude(&r, Outcome::AssistantFailed { error: "e".repeat(3000) }, "now");
    assert!(!effects[0].required);
    assert!(effects[1].required);
    match &effects[0].write {
        Write::Create(draft) => {
            assert_eq!(draft.status, "error");
            assert_eq!(draft.source, "slowclaw");
            assert_eq!(draft.content, "");
            assert_eq!(draft.error.as_ref().unwrap().len(), 2000);
        }
        other => panic!("unexpected {other:?}"),
    }
    match &effects[1].write {
        Write::Patch { patch, .. } => {
            assert_eq!(patch.status, "error");
            assert_eq!(patch.error.as_ref().unwrap().len(), 2000);
        }
        other => panic!("unexpected {other:?}"),
    }
    let effects = conclude(&r, Outcome::ReminderFailed { error: "no scheduler".into() }, "now");
    match &effects[0].write {
        Write::Create(draft) => {
            assert_eq!(draft.source, "slowclaw-reminder");
            assert_eq!(draft.error.as_deref(), Some("no scheduler"));
        }
        other => panic!("unexpected {other:?}"),
    }
}

#[test]
fn answers_are_written_as_done() {
    let r = record("src", "user", "pending", "hello");
    let effects = conclude(&r, Outcome::Answered { reply: "  \n".into() }, "now");
    match &effects[0].write {
        Write::Create(draft) => {
            assert_eq!(draft.content, "(empty response)");
            assert_eq!(draft.status, "done");
            assert_eq!(draft.source, "slowclaw");
        }
        other => panic!("unexpected {other:?}"),
    }
}

#[test]
fn user_messages_need_thread_and_content() {
    let draft = user_message_draft(" t ", " hi ", "now").unwrap();
    assert_eq!(draft.thread_id, "t");
    assert_eq!(draft.content, "hi");
    assert_eq!(draft.role, "user");
    assert_eq!(draft.status, "pending");
    assert_eq!(draft.source, "gateway-ui");
    assert_eq!(draft.created_at_client, "now");
    assert_eq!(draft.reply_to_id, "");
    assert_eq!(draft.processed_at, "");
    assert!(draft.error.is_none());
    assert!(user_message_draft("", "hi", "now").is_none());
    assert!(user_message_draft("t", "  ", "now").is_none());
}

#[test]
fn tokens_come_from_the_first_setting() {
    assert_eq!(slowclaw::worker::resolve_token(Some(" a "), Some("b")), Some("a".to_string()));
    assert_eq!(slowclaw::worker::resolve_token(None, Some("b")), Some("b".to_string()));
    assert_eq!(slowclaw::worker::resolve_token(Some("  "), Some("b")), None);
    assert_eq!(slowclaw::worker::resolve_token(None, None), None);
}

#[test]
fn channel_settings_are_checked() {
    let ok = slowclaw::worker::channel_settings(" http://h:1/ ", " chat ", Some(" tok "), Some("300")).unwrap();
    assert_eq!(ok.base_url, "http://h:1");
    assert_eq!(ok.collection, "chat");
    assert_eq!(ok.token.as_deref(), Some("tok"));
    assert_eq!(ok.poll_ms, 300);
    let plain = slowclaw::worker::channel_settings("http://h", "c", Some("  "), None).unwrap();
    assert!(plain.token.is_none());
    assert_eq!(plain.poll_ms, 1_500);
    assert_eq!(
        slowclaw::worker::channel_settings(" / ", "c", None, None).unwrap_err(),
        "PocketBase base URL is empty"
    );
    assert_eq!(
        slowclaw::worker::channel_settings("http://h", "  ", None, None).unwrap_err(),
        "PocketBase collection is empty"
    );
}

#[test]
fn channel_replies_and_messages() {
    let draft = slowclaw::worker::channel_reply_draft(" t ", " hi ", Some("src"), "now").unwrap();
    assert_eq!(draft.thread_id, "t");
    assert_eq!(draft.content, "hi");
    assert_eq!(draft.role, "assistant");
    assert_eq!(draft.status, "done");
    assert_eq!(draft.source, "slowclaw-channel");
    assert_eq!(draft.reply_to_id, "src");
    assert_eq!(draft.processed_at, "now");
    assert_eq!(
        slowclaw::worker::channel_reply_draft("  ", "hi", None, "now").unwrap_err(),
        "PocketBase channel recipient (threadId) is required"
    );

    let r = record("id1", "user", "pending", " hello ");
    let msg = slowclaw::worker::channel_message(&r, None, 7).unwrap();
    assert_eq!(msg.id, "id1");
    assert_eq!(msg.sender, "pocketbase-user");
    assert_eq!(msg.reply_target, "t");
    assert_eq!(msg.content, " hello ");
    assert_eq!(msg.channel, "pocketbase");
    assert_eq!(msg.timestamp, 7);
    assert_eq!(msg.thread_ts.as_deref(), Some("t"));
    let msg = slowclaw::worker::channel_message(&r, Some("gateway-ui"), 7).unwrap();
    assert_eq!(msg.sender, "gateway-ui");
    assert!(slowclaw::worker::channel_message(&record("id1", "user", "pending", "  "), None, 7).is_none());

    let patch = slowclaw::worker::status_patch("processing", None, "now");
    assert_eq!(patch.status, "processing");
    assert_eq!(patch.error.as_deref(), Some(""));
    assert_eq!(patch.processed_at.as_deref(), Some("now"));
    let patch = slowclaw::worker::status_patch("error", Some("Empty message"), "now");
    assert_eq!(patch.error.as_deref(), Some("Empty message"));
}
