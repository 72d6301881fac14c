//! The tunables a config file may set, read from its JSON.
//!
//! The file keys are camelCase (`waitBonusPerSec`, not `wait_bonus_per_sec`). Every field
//! is optional; the numbers are handed over as the text that spells them, and a field that
//! is absent, null or not a number is `None`, so the caller keeps its default.

use vstd::prelude::*;
use crate::json::{Value, parse, wf_value, law_get_reads_the_map, lemma_field_wf};
use crate::json_spec::{JsonValue, parse_text, message};
use crate::herdr::opt_view;

verus! {

/// The numeric fields a config file sets, each as the literal text of its number.
#[derive(Debug, Clone, PartialEq)]
pub struct ConfigFields {
    pub blocked: Option<String>,
    pub done: Option<String>,
    pub working: Option<String>,
    pub idle: Option<String>,
    pub default: Option<String>,
    pub wait_bonus_per_sec: Option<String>,
    pub max_wait_bonus: Option<String>,
    pub done_bonus_per_sec: Option<String>,
    pub max_done_bonus: Option<String>,
    pub poll_interval_ms: Option<String>,
}

pub struct ConfigFieldsView {
    pub blocked: Option<Seq<char>>,
    pub done: Option<Seq<char>>,
    pub working: Option<Seq<char>>,
    pub idle: Option<Seq<char>>,
    pub default: Option<Seq<char>>,
    pub wait_bonus_per_sec: Option<Seq<char>>,
    pub max_wait_bonus: Option<Seq<char>>,
    pub done_bonus_per_sec: Option<Seq<char>>,
    pub max_done_bonus: Option<Seq<char>>,
    pub poll_interval_ms: Option<Seq<char>>,
}

impl View for ConfigFields {
    type V = ConfigFieldsView;

    open spec fn view(&self) -> ConfigFieldsView {
        ConfigFieldsView {
            blocked: opt_view(self.blocked),
            done: opt_view(self.done),
            working: opt_view(self.working),
            idle: opt_view(self.idle),
            default: opt_view(self.default),
            wait_bonus_per_sec: opt_view(self.wait_bonus_per_sec),
            max_wait_bonus: opt_view(self.max_wait_bonus),
            done_bonus_per_sec: opt_view(self.done_bonus_per_sec),
            max_done_bonus: opt_view(self.max_done_bonus),
            poll_interval_ms: opt_view(self.poll_interval_ms),
        }
    }
}

/// A member of an object.
pub open spec fn member(v: JsonValue, k: Seq<char>) -> Option<JsonValue> {
    match v {
        JsonValue::Obj(m) => if m.dom().contains(k) {
            Some(m[k])
        } else {
            None
        },
        _ => None,
    }
}

/// The number text of a member of an object.
pub open spec fn num_member(v: Option<JsonValue>, k: Seq<char>) -> Option<Seq<char>> {
    match v {
        Some(o) => match member(o, k) {
            Some(JsonValue::Num(t)) => Some(t),
            _ => None,
        },
        None => None,
    }
}

/// The fields a config document sets: the weights under `weights`, the rest at the top.
pub open spec fn fields_of(v: JsonValue) -> ConfigFieldsView {
    let w = member(v, "weights"@);
    let top = Some(v);
    ConfigFieldsView {
        blocked: num_member(w, "blocked"@),
        done: num_member(w, "done"@),
        working: num_member(w, "working"@),
        idle: num_member(w, "idle"@),
        default: num_member(w, "default"@),
        wait_bonus_per_sec: num_member(top, "waitBonusPerSec"@),
        max_wait_bonus: num_member(top, "maxWaitBonus"@),
        done_bonus_per_sec: num_member(top, "doneBonusPerSec"@),
        max_done_bonus: num_member(top, "maxDoneBonus"@),
        poll_interval_ms: num_member(top, "pollIntervalMs"@),
    }
}

/// What a member holds if it is a number: its text.
pub open spec fn number_in(m: Map<Seq<char>, JsonValue>, k: Seq<char>) -> Option<Seq<char>> {
    if m.dom().contains(k) && m[k] is Num {
        Some(m[k]->Num_0)
    } else {
        None
    }
}

/// The five weights are the numbers of the same-named members of the top-level `weights`
/// object (`default` among them, the weight of an unknown status), and the other settings
/// are numbers at the top level. A member that is missing or not a number sets nothing, and
/// a weight written at the top level, outside `weights`, is not a weight.
pub proof fn law_config_fields_are_read_where_they_belong(
    top: Map<Seq<char>, JsonValue>,
    weights: Map<Seq<char>, JsonValue>,
)
    requires
        top.dom().contains("weights"@),
        top["weights"@] == JsonValue::Obj(weights),
    ensures
        fields_of(JsonValue::Obj(top)).blocked == number_in(weights, "blocked"@),
        fields_of(JsonValue::Obj(top)).done == number_in(weights, "done"@),
        fields_of(JsonValue::Obj(top)).working == number_in(weights, "working"@),
        fields_of(JsonValue::Obj(top)).idle == number_in(weights, "idle"@),
        fields_of(JsonValue::Obj(top)).default == number_in(weights, "default"@),
        fields_of(JsonValue::Obj(top)).wait_bonus_per_sec == number_in(top, "waitBonusPerSec"@),
        fields_of(JsonValue::Obj(top)).max_wait_bonus == number_in(top, "maxWaitBonus"@),
        fields_of(JsonValue::Obj(top)).done_bonus_per_sec == number_in(top, "doneBonusPerSec"@),
        fields_of(JsonValue::Obj(top)).max_done_bonus == number_in(top, "maxDoneBonus"@),
        fields_of(JsonValue::Obj(top)).poll_interval_ms == number_in(top, "pollIntervalMs"@),
{
}

/// Without a `weights` object no weight is set, whatever the top level holds.
pub proof fn law_no_weights_object_sets_no_weight(top: Map<Seq<char>, JsonValue>)
    requires
        !(top.dom().contains("weights"@) && top["weights"@] is Obj),
    ensures
        fields_of(JsonValue::Obj(top)).blocked is None,
        fields_of(JsonValue::Obj(top)).done is None,
        fields_of(JsonValue::Obj(top)).working is None,
        fields_of(JsonValue::Obj(top)).idle is None,
        fields_of(JsonValue::Obj(top)).default is None,
{
}

fn num_at(v: Option<&Value>, k: &str) -> (r: Option<String>)
    requires
        v matches Some(x) ==> wf_value(*x),
    ensures
        opt_view(r) == num_member(
            match v {
                Some(x) => Some(x@),
                None => None::<JsonValue>,
            },
            k@,
        ),
{
    match v {
        Some(x) => {
            proof {
                if x is Obj {
                    law_get_reads_the_map(*x, k@);
                }
            }
            match x.num_text_field(k) {
                Some(t) => Some(String::from_str(t)),
                None => None,
            }
        },
        None => None,
    }
}

/// Reads the fields a config file sets; a malformed file is an error, not a panic.
pub fn read_config_fields(raw: &str) -> (r: Result<ConfigFields, String>)
    ensures
        match parse_text(raw@) {
            Ok(v) => r matches Ok(f) && f@ == fields_of(v),
            Err(e) => r matches Err(m) && m@ == message(e),
        },
{
    let v = parse(raw)?;
    let w = v.get("weights");
    proof {
        if v is Obj {
            law_get_reads_the_map(v, "weights"@);
        }
        lemma_field_wf(v, "weights"@);
    }
    let top = Some(&v);
    Ok(
        ConfigFields {
            blocked: num_at(w, "blocked"),
            done: num_at(w, "done"),
            working: num_at(w, "working"),
            idle: num_at(w, "idle"),
            default: num_at(w, "default"),
            wait_bonus_per_sec: num_at(top, "waitBonusPerSec"),
            max_wait_bonus: num_at(top, "maxWaitBonus"),
            done_bonus_per_sec: num_at(top, "doneBonusPerSec"),
            max_done_bonus: num_at(top, "maxDoneBonus"),
            poll_interval_ms: num_at(top, "pollIntervalMs"),
        },
    )
}

} // verus!
