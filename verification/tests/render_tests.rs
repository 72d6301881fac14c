use herdr_triage::priority::RankItem;
use herdr_triage::render::{format_duration, glyph, render_triage, trunc};

fn ranked(status: &str, in_status_ms: u64, pane: Option<&str>, task: Option<&str>) -> RankItem {
    RankItem {
        terminal_id: "term-1".to_string(),
        agent: Some("aider".to_string()),
        pane_id: pane.map(str::to_string),
        task: task.map(str::to_string),
        cwd: Some("/x".to_string()),
        status: status.to_string(),
        in_status_ms,
    }
}

#[test]
fn formats_durations() {
    assert_eq!(format_duration(42_000), "42s");
    assert_eq!(format_duration(5 * 60_000), "5m");
    assert_eq!(format_duration(63 * 60_000), "1h3m");
}

#[test]
fn formats_duration_edges() {
    assert_eq!(format_duration(0), "0s");
    assert_eq!(format_duration(999), "0s");
    assert_eq!(format_duration(59_999), "59s");
    assert_eq!(format_duration(60_000), "1m");
    assert_eq!(format_duration(3_600_000), "1h0m");
    assert_eq!(format_duration(u64::MAX), "5124095576030h25m");
}

#[test]
fn says_so_when_there_are_no_agents() {
    assert_eq!(render_triage(&[]), "No agents.");
}

#[test]
fn shows_a_wait_time_for_blocked_agents_and_a_dash_otherwise() {
    let out = render_triage(&[
        ranked("blocked", 300_000, Some("w1:p1"), Some("Fix login")),
        ranked("done", 10_000, Some("w1:p2"), Some("Fix login")),
    ]);
    assert!(out.contains("🔴"));
    assert!(out.contains("5m"));
    assert!(out.contains("✅"));
    assert!(out.contains("w1:p2"));
    assert!(out.contains("—"));
    // The done agent's 10s in status is not shown as a wait.
    assert!(!out.contains("10s"));
}

#[test]
fn includes_a_header_with_the_agent_count() {
    let out = render_triage(&[
        ranked("blocked", 0, Some("w1:p1"), Some("a")),
        ranked("idle", 0, Some("w1:p2"), Some("b")),
    ]);
    assert!(out.contains("2 agent(s)"));
}

#[test]
fn falls_back_to_the_pane_id_when_there_is_no_task() {
    let out = render_triage(&[ranked("idle", 0, Some("w1:pB"), None)]);
    assert!(out.contains("w1:pB"));
    let blank = render_triage(&[ranked("idle", 0, Some("w1:pB"), Some("   "))]);
    assert!(blank.contains("w1:pB"));
}

#[test]
fn falls_back_to_the_terminal_id_when_there_is_no_pane_either() {
    let out = render_triage(&[ranked("idle", 0, None, None)]);
    assert!(out.contains("term-1"));
}

#[test]
fn truncates_a_long_title_on_a_character_boundary() {
    let long = "認証モジュールを移行してテストを全部書き直すタスクです。長いタイトル";
    let out = render_triage(&[ranked("blocked", 0, Some("w1:p1"), Some(long))]);
    assert!(out.contains('…'));
    assert!(out.contains("認証モジュール"));
}

#[test]
fn an_unknown_status_still_renders_a_row() {
    let out = render_triage(&[ranked("frobnicating", 0, Some("w1:p1"), Some("x"))]);
    assert!(out.contains('·'));
    assert!(out.contains("w1:p1"));
}

#[test]
fn renders_the_exact_layout() {
    let out = render_triage(&[
        ranked("blocked", 540_000, Some("w1:pA"), Some("  Migrate the auth module ")),
        ranked("working", 0, None, None),
    ]);
    let expected = format!(
        "Attention triage — 2 agent(s)\n🔴    9m  {:<32}  w1:pA\n⚙️     —  {:<32}  term-1",
        "Migrate the auth module", "term-1"
    );
    assert_eq!(out, expected);
}

#[test]
fn truncates_to_the_width_with_an_ellipsis() {
    assert_eq!(trunc("abcdef", 6), "abcdef");
    assert_eq!(trunc("abcdef", 4), "abc…");
    assert_eq!(trunc("abcdef", 1), "…");
    assert_eq!(trunc("abcdef", 0), "…");
    assert_eq!(trunc("", 0), "");
}

#[test]
fn marks_each_status() {
    assert_eq!(glyph("blocked"), "🔴");
    assert_eq!(glyph("done"), "✅");
    assert_eq!(glyph("working"), "⚙️");
    assert_eq!(glyph("idle"), "💤");
    assert_eq!(glyph("Blocked"), "·");
}
