use herdr_triage::config::{read_config_fields, ConfigFields};

fn none() -> ConfigFields {
    ConfigFields {
        blocked: None,
        done: None,
        working: None,
        idle: None,
        default: None,
        wait_bonus_per_sec: None,
        max_wait_bonus: None,
        done_bonus_per_sec: None,
        max_done_bonus: None,
        poll_interval_ms: None,
    }
}

#[test]
fn empty_object_yields_defaults() {
    assert_eq!(read_config_fields("{}").unwrap(), none());
}

#[test]
fn merges_weights_over_the_defaults() {
    let c = read_config_fields(r#"{"weights":{"blocked":2000}}"#).unwrap();
    assert_eq!(c.blocked.as_deref().map(|t| t.parse::<f64>().unwrap()), Some(2000.0));
    // Other weights are left to their defaults rather than zeroed by the partial object.
    assert_eq!(c.done, None);
    assert_eq!(c.idle, None);
}

#[test]
fn reads_the_example_config_fields() {
    let c = read_config_fields(
        r#"{"waitBonusPerSec":2,"maxWaitBonus":900,"doneBonusPerSec":0.25,
            "maxDoneBonus":50,"pollIntervalMs":3000}"#,
    )
    .unwrap();
    assert_eq!(c.wait_bonus_per_sec.as_deref(), Some("2"));
    assert_eq!(c.max_wait_bonus.as_deref(), Some("900"));
    assert_eq!(c.done_bonus_per_sec.as_deref().map(|t| t.parse::<f64>().unwrap()), Some(0.25));
    assert_eq!(c.max_done_bonus.as_deref(), Some("50"));
    assert_eq!(c.poll_interval_ms.as_deref(), Some("3000"));
}

#[test]
fn malformed_config_is_an_error_not_a_panic() {
    assert!(read_config_fields("{not json").is_err());
}

#[test]
fn fields_of_the_wrong_type_or_place_are_left_unset() {
    let c = read_config_fields(
        r#"{"weights":{"done":"600","idle":null,"working":7},"blocked":1,"pollIntervalMs":[1]}"#,
    )
    .unwrap();
    assert_eq!(
        c,
        ConfigFields {
            working: Some("7".to_string()),
            ..none()
        }
    );
    assert_eq!(read_config_fields(r#"{"weights":3}"#).unwrap(), none());
    assert_eq!(read_config_fields("[]").unwrap(), none());
}

#[test]
fn config_fields_clone_field_for_field() {
    let fields = read_config_fields("{\"weights\":{\"blocked\":5}}").unwrap();
    assert_eq!(fields.clone(), fields);
}
