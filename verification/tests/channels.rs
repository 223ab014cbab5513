use slowclaw::channels::{
    build_system_prompt, build_system_prompt_with_mode, default_idle_timeout, default_imap_folder,
    default_imap_port, default_smtp_port, default_true, disabled_send_error, linq_memory_key,
    nextcloud_talk_memory_key, wati_memory_key, webhook_memory_key, whatsapp_memory_key,
    ChannelMessage, ClawdTalkConfig, EmailConfig, LinqChannel, NextcloudTalkChannel, WatiChannel,
    WhatsAppChannel,
};

fn sample_message() -> ChannelMessage {
    ChannelMessage {
        id: "wamid-123".into(),
        sender: "+1234567890".into(),
        reply_target: "+1234567890".into(),
        content: "hello".into(),
        channel: "whatsapp".into(),
        timestamp: 1,
        thread_ts: None,
    }
}

#[test]
fn whatsapp_memory_key_includes_sender_and_message_id() {
    let msg = sample_message();
    let key = whatsapp_memory_key(&msg);
    assert_eq!(key, "whatsapp_+1234567890_wamid-123");
}

#[test]
fn other_memory_keys_use_their_channel_prefix() {
    let msg = sample_message();
    assert_eq!(linq_memory_key(&msg), "linq_+1234567890_wamid-123");
    assert_eq!(wati_memory_key(&msg), "wati_+1234567890_wamid-123");
    assert_eq!(nextcloud_talk_memory_key(&msg), "nextcloud_talk_+1234567890_wamid-123");
}

#[test]
fn webhook_memory_key_is_unique() {
    let key1 = webhook_memory_key();
    let key2 = webhook_memory_key();

    assert!(key1.starts_with("webhook_msg_"));
    assert!(key2.starts_with("webhook_msg_"));
    assert_ne!(key1, key2);
    assert_eq!(key1.len(), "webhook_msg_".len() + 36);
    // The identifier is a hyphenated version-4 UUID.
    let id: Vec<char> = key1["webhook_msg_".len()..].chars().collect();
    for (i, c) in id.iter().enumerate() {
        if i == 8 || i == 13 || i == 18 || i == 23 {
            assert_eq!(*c, '-');
        } else {
            assert!(c.is_ascii_digit() || ('a'..='f').contains(c));
        }
    }
    assert_eq!(id[14], '4');
    assert!(matches!(id[19], '8' | '9' | 'a' | 'b'));
}

#[test]
fn identifier_text_is_hyphenated_hex() {
    let bytes: Vec<u8> = (0u8..16).map(|i| i * 17).collect();
    assert_eq!(
        slowclaw::digest::identifier_text(&bytes),
        "00112233-4455-6677-8899-aabbccddeeff"
    );
}

#[test]
fn disabled_channels_parse_nothing() {
    let wa = WhatsAppChannel::new("a".into(), "p".into(), "verify-me".into(), vec!["*".into()]);
    assert_eq!(wa.verify_token(), "verify-me");
    assert_eq!(wa.name(), "whatsapp");
    assert!(wa.parse_webhook_payload(r#"{"entry":[]}"#).is_empty());

    let linq = LinqChannel::new("t".into(), "+1".into(), vec![]);
    assert_eq!(linq.name(), "linq");
    assert!(linq.parse_webhook_payload("{}").is_empty());

    let wati = WatiChannel::new("t".into(), "u".into(), None, vec![]);
    assert_eq!(wati.name(), "wati");
    assert!(wati.parse_webhook_payload("{}").is_empty());

    let nc = NextcloudTalkChannel::new("https://cloud.example.com".into(), "app-token".into(), vec!["*".into()]);
    assert_eq!(nc.name(), "nextcloud-talk");
    assert!(nc.parse_webhook_payload(r#"{"type":"message"}"#).is_empty());

    assert_eq!(
        disabled_send_error("whatsapp"),
        "whatsapp channel integration is disabled in this fork"
    );
}

#[test]
fn email_config_defaults() {
    assert_eq!(default_imap_port(), 993);
    assert_eq!(default_smtp_port(), 465);
    assert_eq!(default_imap_folder(), "INBOX");
    assert_eq!(default_idle_timeout(), 1740);
    assert!(default_true());
    let cfg = EmailConfig::default();
    assert_eq!(cfg.imap_port, 0);
    assert_eq!(cfg.imap_host, "");
    assert!(!cfg.smtp_tls);
    assert!(cfg.allowed_senders.is_empty());
    assert_eq!(EmailConfig::name(), "Email");
    assert_eq!(EmailConfig::desc(), "disabled in this fork");
    assert_eq!(ClawdTalkConfig::name(), "ClawdTalk");
    assert_eq!(ClawdTalkConfig::desc(), "disabled in this fork");
    let talk = ClawdTalkConfig {
        api_key: "k".into(),
        connection_id: "c".into(),
        from_number: "+1".into(),
        allowed_destinations: vec![],
        webhook_secret: None,
    };
    assert_eq!(talk.from_number, "+1");
}

#[test]
fn system_prompt_without_tools() {
    let prompt = build_system_prompt("/ws", "test-model", &vec![], None);
    assert_eq!(
        prompt,
        "You are SlowClaw running in a workspace-only fork.\nCurrent workspace: /ws\nModel: test-model\nExternal messaging channels are disabled except the internal PocketBase app channel.\\nPrefer workspace-local tools and scheduled tasks.\\n\\n"
    );
}

#[test]
fn system_prompt_lists_tools() {
    let tools = vec![
        ("shell".to_string(), "run a command".to_string()),
        ("cron_add".to_string(), "schedule a job".to_string()),
    ];
    let prompt = build_system_prompt_with_mode("/ws", "m", &tools, Some(10), true);
    assert!(prompt.ends_with("## Tools\\n- shell: run a command\n- cron_add: schedule a job\n"));
    assert!(prompt.starts_with("You are SlowClaw running in a workspace-only fork.\nCurrent workspace: /ws\nModel: m\n"));
    assert_eq!(prompt, build_system_prompt("/ws", "m", &tools, None));
}
