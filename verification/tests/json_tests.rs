use herdr_triage::json::{parse, write_str, Value};

/// The exact payload shape herdr 0.7.5 returns for `agent.list`, including the nullable
/// fields.
const REAL_LIST: &str = r#"{"id":"1","result":{"agents":[{"agent":"aider","agent_status":"blocked","cwd":"/w","focused":false,"pane_id":"w1:pA","revision":7,"state_change_seq":3,"tab_id":"w1:t1","terminal_id":"term-1","terminal_title_stripped":"Migrate the auth module","workspace_id":"w1"},{"agent":null,"agent_status":"unknown","cwd":null,"focused":true,"pane_id":"w1:pB","revision":2,"tab_id":"w1:t1","terminal_id":"term-2","terminal_title_stripped":null,"workspace_id":"w1"}],"type":"agent_list"}}"#;

fn num(v: &Value) -> f64 {
    match v {
        Value::Num(t) => t.parse::<f64>().unwrap(),
        _ => panic!("not a number: {:?}", v),
    }
}

fn err_of(input: &str) -> String {
    parse(input).unwrap_err()
}

#[test]
fn reads_agent_fields_from_real_payload() {
    let v = parse(REAL_LIST).expect("should parse");
    let agents = v.path(&["result", "agents"]).unwrap().as_array().unwrap();
    assert_eq!(agents.len(), 2);
    assert_eq!(agents[0].str_field("terminal_id"), Some("term-1"));
    assert_eq!(agents[0].str_field("agent_status"), Some("blocked"));
    assert_eq!(
        agents[0].num_text_field("state_change_seq").map(|t| t.parse::<f64>().unwrap()),
        Some(3.0)
    );
}

/// Nullable fields read as None rather than as the string "null" or a parse failure.
#[test]
fn null_fields_read_as_absent() {
    let v = parse(REAL_LIST).unwrap();
    let agents = v.path(&["result", "agents"]).unwrap().as_array().unwrap();
    assert_eq!(agents[1].str_field("agent"), None);
    assert_eq!(agents[1].str_field("cwd"), None);
    assert_eq!(agents[1].str_field("terminal_title_stripped"), None);
    assert_eq!(agents[1].str_field("agent_status"), Some("unknown"));
}

/// The envelope's own `id` must not be mistaken for an agent's `terminal_id`.
#[test]
fn envelope_fields_do_not_leak_into_agents() {
    let v = parse(REAL_LIST).unwrap();
    assert_eq!(v.str_field("id"), Some("1"));
    let a = &v.path(&["result", "agents"]).unwrap().as_array().unwrap()[0];
    assert_eq!(a.str_field("id"), None, "an agent has no bare `id` field");
}

#[test]
fn empty_agent_list() {
    let v = parse(r#"{"id":"1","result":{"agents":[],"type":"agent_list"}}"#).unwrap();
    assert!(v
        .path(&["result", "agents"])
        .unwrap()
        .as_array()
        .unwrap()
        .is_empty());
}

#[test]
fn scalars_and_escapes() {
    assert_eq!(parse("null").unwrap(), Value::Null);
    assert_eq!(parse(" true ").unwrap(), Value::Bool(true));
    assert_eq!(num(&parse("-12.5e2").unwrap()), -1250.0);
    assert_eq!(
        parse(r#""a\"b\\c\nd""#).unwrap(),
        Value::Str("a\"b\\c\nd".to_string())
    );
    // Literal (unescaped) multi-byte input, at 3 and 4 bytes per character.
    assert_eq!(parse(r#""あ""#).unwrap(), Value::Str("あ".to_string()));
    assert_eq!(parse(r#""🚀""#).unwrap(), Value::Str("🚀".to_string()));
}

#[test]
fn rejects_malformed_input() {
    assert!(parse("{").is_err());
    assert!(parse(r#"{"a":1,}"#).is_err());
    assert!(parse(r#"{"a":1} junk"#).is_err());
    assert!(parse(r#""unterminated"#).is_err());
}

#[test]
fn writes_escaped_strings() {
    let mut s = String::new();
    write_str(&mut s, "a\"b\\c\nd");
    assert_eq!(s, r#""a\"b\\c\nd""#);
}

#[test]
fn writes_control_characters_as_unicode_escapes() {
    let mut s = String::from("x=");
    write_str(&mut s, "\u{1}\t\r\u{1f}é");
    assert_eq!(s, "x=\"\\u0001\\t\\r\\u001fé\"");
}

#[test]
fn written_strings_read_back() {
    for text in ["", "plain", "a\"b\\c\nd", "\u{0}\u{8}\u{c}\u{1b}", "認証 🚀 /slash"] {
        let mut s = String::new();
        write_str(&mut s, text);
        assert_eq!(parse(&s).unwrap(), Value::Str(text.to_string()));
    }
}

#[test]
fn reports_each_kind_of_malformed_input() {
    assert_eq!(err_of(""), "unexpected end of input");
    assert_eq!(err_of("{"), "expected `\"`, found end of input");
    assert_eq!(err_of(r#"{"a":1,}"#), "expected `\"`, found `}` at 7");
    assert_eq!(err_of(r#"{"a" 1}"#), "expected `:`, found `1` at 5");
    assert_eq!(err_of(r#"{"a":1"#), "malformed object near 6");
    assert_eq!(err_of(r#"{"a":1]"#), "malformed object near 7");
    assert_eq!(err_of("[1 2]"), "malformed array near 4");
    assert_eq!(err_of("[1"), "malformed array near 2");
    assert_eq!(err_of(r#"{"a":1} junk"#), "trailing input at char 8");
    assert_eq!(err_of(r#""unterminated"#), "unterminated string");
    assert_eq!(err_of("tru"), "invalid literal at 0");
    assert_eq!(err_of("[nul]"), "invalid literal at 1");
    assert_eq!(err_of(r#""\x""#), "bad escape `\\Some('x')`");
    assert_eq!(err_of("\"\\"), "bad escape `\\None`");
    assert_eq!(err_of(r#""\u12G4""#), "bad hex digit `G`");
    assert_eq!(err_of(r#""\u1"#), "truncated \\u escape");
    assert_eq!(err_of("-"), "bad number `-`");
    assert_eq!(err_of("}"), "bad number ``");
    assert_eq!(err_of("1.2.3"), "bad number `1.2.3`");
}

#[test]
fn reads_numbers_with_the_shape_of_float_literals() {
    for (text, value) in [("0", 0.0), ("1.", 1.0), (".5", 0.5), ("+1", 1.0), ("1e5", 1e5), ("2E-3", 2e-3), ("-0.25", -0.25)] {
        assert_eq!(num(&parse(text).unwrap()), value, "{}", text);
    }
    for text in ["1e", ".", "e5", "1e+", "--1"] {
        assert!(parse(text).is_err(), "{}", text);
    }
}

#[test]
fn combines_surrogate_pairs_and_replaces_lone_surrogates() {
    assert_eq!(parse(r#""\ud83d\ude80""#).unwrap(), Value::Str("🚀".to_string()));
    assert_eq!(parse(r#""\ud83dx""#).unwrap(), Value::Str("\u{FFFD}x".to_string()));
    assert_eq!(parse(r#""\ud83d\u0041""#).unwrap(), Value::Str("\u{FFFD}A".to_string()));
    assert_eq!(parse(r#""\ud800\ud83d\ude80""#).unwrap(), Value::Str("\u{FFFD}🚀".to_string()));
    assert_eq!(parse(r#""\ud800\n""#).unwrap(), Value::Str("\u{FFFD}\n".to_string()));
    assert_eq!(parse(r#""\udc00""#).unwrap(), Value::Str("\u{FFFD}".to_string()));
    assert_eq!(parse(r#""\u00e9\u0041""#).unwrap(), Value::Str("éA".to_string()));
    assert_eq!(err_of(r#""\ud83d\u12""#), "bad hex digit `\"`");
}

#[test]
fn objects_keep_one_member_per_key_in_key_order() {
    let v = parse(r#"{"b":1,"a":2,"b":3}"#).unwrap();
    assert_eq!(
        v,
        Value::Obj(vec![
            ("a".to_string(), Value::Num("2".to_string())),
            ("b".to_string(), Value::Num("3".to_string())),
        ])
    );
    assert_eq!(v.get("b"), Some(&Value::Num("3".to_string())));
    assert_eq!(v.get("c"), None);
}

#[test]
fn reads_nested_arrays_and_objects() {
    let v = parse(" [ {\"k\" : [ 1 , [ ] , { } ] } , null ] ").unwrap();
    assert_eq!(
        v,
        Value::Arr(vec![
            Value::Obj(vec![(
                "k".to_string(),
                Value::Arr(vec![Value::Num("1".to_string()), Value::Arr(vec![]), Value::Obj(vec![])])
            )]),
            Value::Null,
        ])
    );
    assert_eq!(v.path(&[]), Some(&v));
    assert_eq!(v.path(&["k"]), None);
    assert_eq!(v.as_array().map(|a| a.len()), Some(2));
    assert_eq!(v.as_str(), None);
}

#[test]
fn accessors_on_other_shapes_find_nothing() {
    let v = parse("\"text\"").unwrap();
    assert_eq!(v.get("a"), None);
    assert_eq!(v.as_str(), Some("text"));
    assert_eq!(v.as_array(), None);
    assert_eq!(v.str_field("a"), None);
    assert_eq!(v.num_text_field("a"), None);
    let o = parse(r#"{"n":12,"s":"x"}"#).unwrap();
    assert_eq!(o.num_text_field("n"), Some("12"));
    assert_eq!(o.num_text_field("s"), None);
    assert_eq!(o.str_field("n"), None);
}

#[test]
fn skips_unicode_whitespace_between_tokens() {
    assert_eq!(parse("\u{3000}\u{a0}[\u{2028}true\u{85}]\n").unwrap(), Value::Arr(vec![Value::Bool(true)]));
}

#[test]
fn whitespace_around_a_value_is_ignored() {
    for s in ["null", "12.5", "\"a b\"", "[1, {\"k\": []}]", "{\"x\":true}"] {
        let padded = format!(" \t{}\n ", s);
        assert_eq!(parse(&padded), parse(s));
        assert!(parse(s).is_ok());
    }
}

#[test]
fn text_after_a_value_is_trailing_input() {
    assert_eq!(err_of("{} x"), "trailing input at char 3");
    assert_eq!(err_of("[1]x"), "trailing input at char 3");
    assert_eq!(err_of("true 1"), "trailing input at char 5");
    assert_eq!(err_of("\"s\"\u{3000}}"), "trailing input at char 4");
}

#[test]
fn number_characters_right_after_a_number_run_on_into_it() {
    assert_eq!(num(&parse("1").unwrap()), 1.0);
    assert_eq!(num(&parse("1e5").unwrap()), 100000.0);
    assert_eq!(err_of("1-"), "bad number `1-`");
}

#[test]
fn a_cloned_value_equals_the_original() {
    let v = parse(REAL_LIST).unwrap();
    assert_eq!(v.clone(), v);
    let w = parse("[null, false, \"\\u00e9\", 3, {\"b\": 1, \"a\": [2]}]").unwrap();
    assert_eq!(w.clone(), w);
}
