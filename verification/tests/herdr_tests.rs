use herdr_triage::herdr::{absorb_chunk, line_text, parse_agents, read_response, request_line, Agent, LineReader};
use herdr_triage::json::{parse, Value};

const REAL_LIST: &str = r#"{"id":"1","result":{"agents":[
    {"agent":"aider","agent_status":"blocked","cwd":"/w","pane_id":"w1:pA",
     "terminal_id":"term-1","terminal_title_stripped":"Migrate the auth module"},
    {"agent":null,"agent_status":"unknown","cwd":null,"pane_id":"w1:pB",
     "terminal_id":"term-2","terminal_title_stripped":null}
],"type":"agent_list"}}"#;

/// Wrap a bare `agents` array in the response envelope the client actually receives.
fn envelope(agents: &str) -> Value {
    parse(&format!(r#"{{"id":"1","result":{{"agents":{}}}}}"#, agents)).unwrap()
}

#[test]
fn reads_agents_from_a_real_result() {
    let agents = parse_agents(&parse(REAL_LIST).unwrap());
    assert_eq!(agents.len(), 2);
    assert_eq!(agents[0].terminal_id, "term-1");
    assert_eq!(agents[0].status, "blocked");
    assert_eq!(agents[0].task.as_deref(), Some("Migrate the auth module"));
    assert_eq!(agents[0].pane_id.as_deref(), Some("w1:pA"));
}

#[test]
fn null_fields_survive_as_none() {
    let agents = parse_agents(&parse(REAL_LIST).unwrap());
    assert_eq!(agents[1].agent, None);
    assert_eq!(agents[1].task, None);
    assert_eq!(agents[1].cwd, None);
    assert_eq!(agents[1].status, "unknown");
}

#[test]
fn an_entry_without_a_terminal_id_is_skipped() {
    let agents = parse_agents(&envelope(r#"[{"agent_status":"idle","pane_id":"w1:pA"}]"#));
    assert!(agents.is_empty());
}

#[test]
fn a_missing_status_reads_as_unknown() {
    let agents = parse_agents(&envelope(r#"[{"terminal_id":"t"}]"#));
    assert_eq!(agents[0].status, "unknown");
}

#[test]
fn an_empty_or_absent_list_is_no_agents() {
    assert!(parse_agents(&envelope("[]")).is_empty());
    assert!(parse_agents(&parse(r#"{"id":"1","result":{}}"#).unwrap()).is_empty());
}

/// The envelope's own `id` must not be read as an agent field.
#[test]
fn the_envelope_id_is_not_mistaken_for_an_agent() {
    let agents = parse_agents(&parse(REAL_LIST).unwrap());
    assert_eq!(agents[0].terminal_id, "term-1");
    assert_eq!(agents[1].terminal_id, "term-2");
}

#[test]
fn keeps_every_field_of_a_listed_agent_in_order() {
    let agents = parse_agents(&envelope(
        r#"[{"terminal_id":"a","agent":"codex","agent_status":"done","pane_id":"p","cwd":"/c","terminal_title_stripped":"t"},
            {"terminal_id":7},{"terminal_id":"b","agent_status":3}]"#,
    ));
    assert_eq!(
        agents,
        vec![
            Agent {
                terminal_id: "a".to_string(),
                agent: Some("codex".to_string()),
                task: Some("t".to_string()),
                status: "done".to_string(),
                pane_id: Some("p".to_string()),
                cwd: Some("/c".to_string()),
            },
            Agent {
                terminal_id: "b".to_string(),
                agent: None,
                task: None,
                status: "unknown".to_string(),
                pane_id: None,
                cwd: None,
            },
        ]
    );
}

#[test]
fn a_result_that_is_not_an_array_is_no_agents() {
    assert!(parse_agents(&parse(r#"{"result":{"agents":{"terminal_id":"t"}}}"#).unwrap()).is_empty());
    assert!(parse_agents(&parse("[1,2]").unwrap()).is_empty());
}

#[test]
fn builds_the_request_line() {
    assert_eq!(request_line("agent.list"), "{\"id\":\"1\",\"method\":\"agent.list\",\"params\":{}}\n");
    assert_eq!(request_line("a\"b"), "{\"id\":\"1\",\"method\":\"a\\\"b\",\"params\":{}}\n");
}

#[test]
fn accepts_a_response_with_a_result() {
    let msg = read_response("ping", r#"{"id":"1","result":{}}"#).unwrap();
    assert_eq!(msg.str_field("id"), Some("1"));
}

#[test]
fn reports_an_error_response() {
    assert_eq!(
        read_response("agent.list", r#"{"id":"1","error":{"code":"E1","message":"nope"},"result":{}}"#).unwrap_err(),
        "herdr agent.list: E1 nope"
    );
    assert_eq!(
        read_response("ping", r#"{"error":{}}"#).unwrap_err(),
        "herdr ping: ? (no message)"
    );
}

#[test]
fn reports_a_response_without_a_result() {
    assert_eq!(read_response("ping", r#"{"id":"1"}"#).unwrap_err(), "herdr ping: response had no result");
    assert_eq!(read_response("ping", "[]").unwrap_err(), "herdr ping: response had no result");
}

#[test]
fn passes_on_a_malformed_response_as_the_parse_error() {
    assert_eq!(read_response("ping", "{\"id\":").unwrap_err(), "unexpected end of input");
}

#[test]
fn takes_chunks_up_to_the_first_newline() {
    let mut buf = Vec::new();
    assert!(!absorb_chunk(&mut buf, b"{\"a\""));
    assert!(absorb_chunk(&mut buf, b":1}\n{\"next\""));
    assert_eq!(buf, b"{\"a\":1}".to_vec());
    let mut empty = Vec::new();
    assert!(absorb_chunk(&mut empty, b"\n"));
    assert!(empty.is_empty());
}

fn read_in_chunks(bytes: &[u8], sizes: &[usize]) -> Vec<u8> {
    let mut buf = Vec::new();
    let mut at = 0;
    for &n in sizes {
        let end = (at + n).min(bytes.len());
        if absorb_chunk(&mut buf, &bytes[at..end]) {
            return buf;
        }
        at = end;
    }
    buf
}

#[test]
fn the_line_does_not_depend_on_how_the_reads_split_it() {
    let bytes = b"{\"id\":\"triage\",\"result\":[]}\n{\"late\":1}";
    let whole = read_in_chunks(bytes, &[bytes.len()]);
    assert_eq!(whole, b"{\"id\":\"triage\",\"result\":[]}".to_vec());
    assert_eq!(read_in_chunks(bytes, &[1; 64]), whole);
    assert_eq!(read_in_chunks(bytes, &[3, 7, 2, 40]), whole);
    assert_eq!(read_in_chunks(bytes, &[27, 1, 10]), whole);
}

#[test]
fn a_peer_that_closes_without_a_newline_gives_everything_it_sent() {
    let bytes = b"{\"id\":\"triage\"}";
    assert_eq!(read_in_chunks(bytes, &[4, 4, 4, 4]), bytes.to_vec());
}

#[test]
fn a_line_reads_as_utf8_text() {
    assert_eq!(line_text(b"{\"id\":\"1\"}"), "{\"id\":\"1\"}");
    assert_eq!(line_text("caf\u{e9}".as_bytes()), "caf\u{e9}");
    assert_eq!(line_text(b"a\xffb"), "a\u{fffd}b");
    assert_eq!(line_text(b""), "");
}

fn read_with_reader(bytes: &[u8], sizes: &[usize]) -> String {
    let mut line = LineReader::new();
    let mut at = 0;
    for &n in sizes {
        if at >= bytes.len() {
            break;
        }
        let end = (at + n).min(bytes.len());
        let done = line.feed(&bytes[at..end]);
        at = end;
        if done {
            break;
        }
    }
    line.finish()
}

#[test]
fn a_reader_gives_the_same_text_for_every_split() {
    let bytes = "{\"t\":\"caf\u{e9}\"}\n{\"late\":1}".as_bytes();
    let expected = "{\"t\":\"caf\u{e9}\"}".to_string();
    assert_eq!(read_with_reader(bytes, &[bytes.len()]), expected);
    assert_eq!(read_with_reader(bytes, &[1; 64]), expected);
    assert_eq!(read_with_reader(bytes, &[9, 2, 3, 50]), expected);
}

#[test]
fn a_reader_whose_peer_closes_gives_all_it_was_fed() {
    assert_eq!(read_with_reader(b"{\"id\":", &[2, 2, 2]), "{\"id\":");
    assert_eq!(read_with_reader(b"", &[]), "");
}

#[test]
fn a_reader_ignores_chunks_after_the_line_is_complete() {
    let mut line = LineReader::new();
    assert!(line.feed(b"ab\ncd"));
    assert!(line.feed(b"ef"));
    assert_eq!(line.finish(), "ab");
}
