use herdr_triage::herdr::Agent;
use herdr_triage::priority::{attention_order, RankItem};

/// Scores under the default weights, as whole numbers (the default weights and bonuses give
/// whole-number scores at whole seconds): blocked 1000 + 1/s up to 600, done 500 + 0.5/s
/// up to 100, working 100, idle 10.
fn default_score(status: &str, in_status_ms: u64) -> u64 {
    let secs = in_status_ms / 1000;
    match status {
        "blocked" => 1000 + secs.min(600),
        "done" => 500 + (secs / 2).min(100),
        "working" => 100,
        "idle" => 10,
        _ => 50,
    }
}

fn order_of(items: &[(&str, &str, u64)]) -> Vec<String> {
    let keys: Vec<u64> = items.iter().map(|(_, s, ms)| default_score(s, *ms)).collect();
    let waits: Vec<u64> = items.iter().map(|(_, _, ms)| *ms).collect();
    attention_order(&keys, &waits)
        .into_iter()
        .map(|i| items[i].0.to_string())
        .collect()
}

#[test]
fn puts_the_longest_blocked_agent_first() {
    let ids = order_of(&[
        ("a", "blocked", 5_000),
        ("b", "blocked", 120_000),
        ("c", "done", 0),
        ("d", "idle", 0),
    ]);
    assert_eq!(ids, ["b", "a", "c", "d"]);
}

#[test]
fn breaks_score_ties_by_longer_time_in_status() {
    let ids = order_of(&[("x", "working", 1_000), ("y", "working", 9_000)]);
    assert_eq!(ids[0], "y");
}

#[test]
fn keeps_input_order_among_exact_ties() {
    assert_eq!(attention_order(&[5, 7, 5, 7, 5], &[1, 1, 1, 1, 2]), vec![1, 3, 4, 0, 2]);
    assert_eq!(attention_order(&[], &[]), Vec::<usize>::new());
}

#[test]
fn copies_an_agent_into_a_rank_item() {
    let a = Agent {
        terminal_id: "t".to_string(),
        agent: Some("aider".to_string()),
        task: None,
        status: "done".to_string(),
        pane_id: Some("w1:p1".to_string()),
        cwd: Some("/x".to_string()),
    };
    let item = RankItem::from_agent(&a, 42);
    assert_eq!(
        item,
        RankItem {
            terminal_id: "t".to_string(),
            agent: Some("aider".to_string()),
            pane_id: Some("w1:p1".to_string()),
            task: None,
            cwd: Some("/x".to_string()),
            status: "done".to_string(),
            in_status_ms: 42,
        }
    );
}

#[test]
fn rank_items_clone_field_for_field() {
    let item = RankItem {
        terminal_id: "t".to_string(),
        agent: None,
        pane_id: Some("w1:p1".to_string()),
        task: Some("task".to_string()),
        cwd: None,
        status: "blocked".to_string(),
        in_status_ms: 7,
    };
    assert_eq!(item.clone(), item);
}
