use slowclaw::context::{
    current_channel_execution_context, default_cron_delivery_for_current_channel,
    ChannelExecutionContext, ContextScope,
};

#[test]
fn no_context_returns_none() {
    assert!(default_cron_delivery_for_current_channel(&ContextScope::outside()).is_none());
}

#[test]
fn pocketbase_context_maps_to_announce_delivery() {
    let ctx = ChannelExecutionContext::new("pocketbase", "thread-123", Some("thread-123".into()));
    let delivery = default_cron_delivery_for_current_channel(&ContextScope::entered(ctx))
        .expect("delivery should exist");

    assert_eq!(delivery.mode, "announce");
    assert_eq!(delivery.channel.as_deref(), Some("pocketbase"));
    assert_eq!(delivery.to.as_deref(), Some("thread-123"));
    assert!(delivery.best_effort);
}

#[test]
fn context_channel_is_trimmed_and_case_insensitive() {
    let ctx = ChannelExecutionContext::new("  PocketBase ", "  t-9 ", None);
    let delivery = default_cron_delivery_for_current_channel(&ContextScope::entered(ctx)).unwrap();
    assert_eq!(delivery.to.as_deref(), Some("t-9"));
}

#[test]
fn other_channels_and_empty_recipients_get_no_delivery() {
    let ctx = ChannelExecutionContext::new("cli", "thread-123", None);
    assert!(default_cron_delivery_for_current_channel(&ContextScope::entered(ctx)).is_none());
    let ctx = ChannelExecutionContext::new("pocketbase", "   ", None);
    assert!(default_cron_delivery_for_current_channel(&ContextScope::entered(ctx)).is_none());
}

#[test]
fn current_context_is_the_entered_one() {
    assert!(current_channel_execution_context(&ContextScope::outside()).is_none());
    let ctx = ChannelExecutionContext::new("pocketbase", "t", Some("ts".into()));
    let scope = ContextScope::entered(ctx);
    let got = current_channel_execution_context(&scope).unwrap();
    assert_eq!(got.channel, "pocketbase");
    assert_eq!(got.recipient, "t");
    assert_eq!(got.thread_ts.as_deref(), Some("ts"));
    let copy = got.duplicate();
    assert_eq!(copy.recipient, "t");
}
