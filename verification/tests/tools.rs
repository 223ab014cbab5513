use slowclaw::tools::{
    cap_output, format_run_report, run_error, text_argument, timeout_secs,
    truncate_utf8_to_max_bytes, AudioToVideoTool, DEFAULT_TIMEOUT_SECS, MAX_OUTPUT_BYTES,
    MAX_TIMEOUT_SECS,
};

#[test]
fn tool_identity() {
    let tool = AudioToVideoTool::new("/ws".into());
    assert_eq!(tool.name(), "audio_to_video");
    assert_eq!(tool.workspace_dir(), "/ws");
    assert!(tool.description().starts_with("Run the audio_to_video processor skill"));
    assert!(tool.description().ends_with("published under journals/processed."));
    assert_eq!(
        tool.script_path(),
        "scripts/audio_to_video_skill/slowclaw_audio_to_video_job.py"
    );
}

#[test]
fn timeout_is_clamped() {
    assert_eq!(DEFAULT_TIMEOUT_SECS, 3600);
    assert_eq!(MAX_TIMEOUT_SECS, 7200);
    assert_eq!(timeout_secs(None), 3600);
    assert_eq!(timeout_secs(Some(0)), 1);
    assert_eq!(timeout_secs(Some(1)), 1);
    assert_eq!(timeout_secs(Some(7200)), 7200);
    assert_eq!(timeout_secs(Some(7201)), 7200);
    assert_eq!(timeout_secs(Some(90)), 90);
}

#[test]
fn text_arguments_are_trimmed() {
    assert_eq!(text_argument(Some("  a.m4a ")), Some("a.m4a".to_string()));
    assert_eq!(text_argument(Some("   ")), None);
    assert_eq!(text_argument(None), None);
}

#[test]
fn truncation_respects_character_boundaries() {
    let mut s = String::from("héllo");
    truncate_utf8_to_max_bytes(&mut s, 2);
    assert_eq!(s, "h");
    let mut s = String::from("héllo");
    truncate_utf8_to_max_bytes(&mut s, 3);
    assert_eq!(s, "hé");
    let mut s = String::from("héllo");
    truncate_utf8_to_max_bytes(&mut s, 6);
    assert_eq!(s, "héllo");
    let mut s = String::from("héllo");
    truncate_utf8_to_max_bytes(&mut s, 100);
    assert_eq!(s, "héllo");
    let mut s = String::from("🦀🦀");
    truncate_utf8_to_max_bytes(&mut s, 7);
    assert_eq!(s, "🦀");
    let mut s = String::from("🦀🦀");
    truncate_utf8_to_max_bytes(&mut s, 3);
    assert_eq!(s, "");
    let mut s = String::from("a€b");
    truncate_utf8_to_max_bytes(&mut s, 3);
    assert_eq!(s, "a");
    truncate_utf8_to_max_bytes(&mut s, 0);
    assert_eq!(s, "");
}

#[test]
fn long_output_is_capped_and_marked() {
    assert_eq!(MAX_OUTPUT_BYTES, 1_048_576);
    assert_eq!(cap_output("short", "stdout"), "short");
    let exact = "a".repeat(MAX_OUTPUT_BYTES);
    assert_eq!(cap_output(&exact, "stdout"), exact);
    let long = "a".repeat(MAX_OUTPUT_BYTES + 5);
    let capped = cap_output(&long, "stderr");
    assert_eq!(capped.len(), MAX_OUTPUT_BYTES + "\n... [stderr truncated at 1MB]".len());
    assert!(capped.ends_with("\n... [stderr truncated at 1MB]"));
}

#[test]
fn run_report_format() {
    let report = format_run_report("/ws/s.py", "journals/a.m4a", "exit status: 0", " out \n", "\n");
    assert_eq!(
        report,
        "script=/ws/s.py\naudio=journals/a.m4a\nstatus=exit status: 0\nstdout:\nout\nstderr:\n"
    );
}

#[test]
fn run_error_only_for_failed_runs_with_stderr() {
    assert_eq!(run_error(true, "boom"), None);
    assert_eq!(run_error(false, "  \n"), None);
    assert_eq!(run_error(false, "boom\n"), Some("boom\n".to_string()));
}
