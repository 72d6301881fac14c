//! A JSON reader — enough to consume herdr's `agent.list` and a config file.
//!
//! It parses structurally rather than scanning for `"key":"..."`: an `agent.list`
//! response nests one object per agent and reuses key names in the envelope, so only a
//! real parse reads *this* agent's field. Objects keep their members sorted by key with
//! each key once, as an ordered map would; numbers keep the text that spelled them.

use vstd::prelude::*;
use crate::text::{push_decimal, decimal, white_space, chars_of, string_of, is_scalar};
use crate::json_spec::{
    JsonValue, SyntaxError, message, shift, ws_len, value, object, members, array, elements,
    string_at, string_body, unicode_escape, hex4, hex_run, hex_value,
    number, number_run, is_number_char, digit_run, sign_len, is_float_text, literal,
    parse_text, debug_char, char_or_replacement,
};

verus! {

/// A parsed JSON value.
#[derive(Debug, PartialEq)]
pub enum Value {
    Null,
    Bool(bool),
    /// The number's literal text, which has the shape of a Rust float literal.
    Num(String),
    Str(String),
    Arr(Vec<Value>),
    /// Members sorted by key, each key once.
    Obj(Vec<(String, Value)>),
}

pub open spec fn view_value(v: Value) -> JsonValue
    decreases v,
{
    match v {
        Value::Null => JsonValue::Null,
        Value::Bool(b) => JsonValue::Bool(b),
        Value::Num(t) => JsonValue::Num(t@),
        Value::Str(t) => JsonValue::Str(t@),
        Value::Arr(items) => JsonValue::Arr(view_items(items@)),
        Value::Obj(es) => JsonValue::Obj(view_entries(es@)),
    }
}

pub open spec fn view_items(s: Seq<Value>) -> Seq<JsonValue>
    decreases s,
{
    if s.len() == 0 {
        Seq::empty()
    } else {
        view_items(s.drop_last()).push(view_value(s.last()))
    }
}

/// The map an object's members denote: a later member wins over an earlier one.
pub open spec fn view_entries(s: Seq<(String, Value)>) -> Map<Seq<char>, JsonValue>
    decreases s,
{
    if s.len() == 0 {
        Map::empty()
    } else {
        view_entries(s.drop_last()).insert(s.last().0@, view_value(s.last().1))
    }
}

impl View for Value {
    type V = JsonValue;

    open spec fn view(&self) -> JsonValue {
        view_value(*self)
    }
}

/// Lexicographic order of keys by code point, which is the order of `String`.
pub open spec fn key_less(a: Seq<char>, b: Seq<char>) -> bool
    decreases a.len(),
{
    if a.len() == 0 {
        b.len() > 0
    } else if b.len() == 0 {
        false
    } else if a[0] < b[0] {
        true
    } else if a[0] == b[0] {
        key_less(a.drop_first(), b.drop_first())
    } else {
        false
    }
}

pub proof fn lemma_key_less_irreflexive(a: Seq<char>)
    ensures
        !key_less(a, a),
    decreases a.len(),
{
    if a.len() > 0 {
        lemma_key_less_irreflexive(a.drop_first());
    }
}

pub proof fn lemma_key_less_transitive(a: Seq<char>, b: Seq<char>, c: Seq<char>)
    requires
        key_less(a, b),
        key_less(b, c),
    ensures
        key_less(a, c),
    decreases a.len(),
{
    if a.len() > 0 && b.len() > 0 && c.len() > 0 {
        if a[0] == b[0] && b[0] == c[0] {
            lemma_key_less_transitive(a.drop_first(), b.drop_first(), c.drop_first());
        }
    }
}

pub proof fn lemma_key_less_total(a: Seq<char>, b: Seq<char>)
    requires
        a != b,
    ensures
        key_less(a, b) || key_less(b, a),
    decreases a.len(),
{
    if a.len() > 0 && b.len() > 0 {
        if a[0] == b[0] {
            if a.drop_first() == b.drop_first() {
                assert(a =~= seq![a[0]] + a.drop_first());
                assert(b =~= seq![b[0]] + b.drop_first());
            }
            lemma_key_less_total(a.drop_first(), b.drop_first());
        }
    } else if a.len() == 0 && b.len() == 0 {
        assert(a =~= b);
    }
}

/// Members strictly ascending by key.
pub open spec fn sorted_keys(es: Seq<(String, Value)>) -> bool {
    forall|a: int, b: int| 0 <= a < b < es.len() ==> key_less(#[trigger] es[a].0@, #[trigger] es[b].0@)
}

/// Each object's members are sorted by key, each key once, all the way down.
pub open spec fn wf_value(v: Value) -> bool
    decreases v,
{
    match v {
        Value::Arr(items) => wf_items(items@),
        Value::Obj(es) => sorted_keys(es@) && wf_entries(es@),
        _ => true,
    }
}

pub open spec fn wf_items(s: Seq<Value>) -> bool
    decreases s,
{
    s.len() == 0 || (wf_items(s.drop_last()) && wf_value(s.last()))
}

pub open spec fn wf_entries(s: Seq<(String, Value)>) -> bool
    decreases s,
{
    s.len() == 0 || (wf_entries(s.drop_last()) && wf_value(s.last().1))
}

pub proof fn lemma_wf_entries(s: Seq<(String, Value)>)
    ensures
        wf_entries(s) == (forall|i: int| 0 <= i < s.len() ==> wf_value(#[trigger] s[i].1)),
    decreases s.len(),
{
    if s.len() > 0 {
        lemma_wf_entries(s.drop_last());
        if wf_entries(s) {
            assert forall|i: int| 0 <= i < s.len() implies wf_value(#[trigger] s[i].1) by {
                if i < s.len() - 1 {
                    assert(s[i] == s.drop_last()[i]);
                }
            }
        }
        if forall|i: int| 0 <= i < s.len() ==> wf_value(#[trigger] s[i].1) {
            assert forall|i: int| 0 <= i < s.drop_last().len() implies wf_value(
                #[trigger] s.drop_last()[i].1,
            ) by {
                assert(s.drop_last()[i] == s[i]);
            }
        }
    }
}

pub proof fn lemma_view_items_push(s: Seq<Value>, v: Value)
    ensures
        view_items(s.push(v)) == view_items(s).push(view_value(v)),
{
    assert(s.push(v).drop_last() =~= s);
}

pub proof fn lemma_view_entries_push(s: Seq<(String, Value)>, e: (String, Value))
    ensures
        view_entries(s.push(e)) == view_entries(s).insert(e.0@, view_value(e.1)),
{
    assert(s.push(e).drop_last() =~= s);
}

/// Adding a member under a key the object does not have.
pub proof fn lemma_view_entries_insert(s: Seq<(String, Value)>, idx: int, e: (String, Value))
    requires
        0 <= idx <= s.len(),
        forall|i: int| 0 <= i < s.len() ==> (#[trigger] s[i]).0@ != e.0@,
    ensures
        view_entries(s.insert(idx, e)) == view_entries(s).insert(e.0@, view_value(e.1)),
    decreases s.len(),
{
    if idx == s.len() {
        assert(s.insert(idx, e) =~= s.push(e));
        lemma_view_entries_push(s, e);
    } else {
        let t = s.insert(idx, e);
        assert(t.drop_last() =~= s.drop_last().insert(idx, e));
        assert(t.last() == s.last());
        assert(s.last() == s[s.len() - 1]);
        lemma_view_entries_insert(s.drop_last(), idx, e);
        assert(view_entries(t) =~= view_entries(s).insert(e.0@, view_value(e.1)));
    }
}

/// Replacing the member at `idx` by one with the same key.
pub proof fn lemma_view_entries_update(s: Seq<(String, Value)>, idx: int, e: (String, Value))
    requires
        0 <= idx < s.len(),
        e.0@ == s[idx].0@,
        forall|i: int| 0 <= i < s.len() && i != idx ==> (#[trigger] s[i]).0@ != e.0@,
    ensures
        view_entries(s.update(idx, e)) == view_entries(s).insert(e.0@, view_value(e.1)),
    decreases s.len(),
{
    let t = s.update(idx, e);
    if idx == s.len() - 1 {
        assert(t.drop_last() =~= s.drop_last());
        assert(view_entries(t) =~= view_entries(s).insert(e.0@, view_value(e.1)));
    } else {
        assert(t.drop_last() =~= s.drop_last().update(idx, e));
        assert(s.last() == s[s.len() - 1]);
        lemma_view_entries_update(s.drop_last(), idx, e);
        assert(view_entries(t) =~= view_entries(s).insert(e.0@, view_value(e.1)));
    }
}

/// With each key once, the map holds exactly the members' keys, each with its member's value.
pub proof fn lemma_view_entries_lookup(s: Seq<(String, Value)>, k: Seq<char>)
    requires
        forall|a: int, b: int| 0 <= a < b < s.len() ==> (#[trigger] s[a]).0@ != (#[trigger] s[b]).0@,
    ensures
        view_entries(s).dom().contains(k) <==> exists|i: int| 0 <= i < s.len() && (#[trigger] s[i]).0@ == k,
        forall|i: int| 0 <= i < s.len() && (#[trigger] s[i]).0@ == k ==> view_entries(s)[k] == view_value(s[i].1),
    decreases s.len(),
{
    if s.len() > 0 {
        lemma_view_entries_lookup(s.drop_last(), k);
        assert(s.last() == s[s.len() - 1]);
        if view_entries(s).dom().contains(k) && s.last().0@ != k {
            let i = choose|i: int| 0 <= i < s.drop_last().len() && (#[trigger] s.drop_last()[i]).0@ == k;
            assert(s[i] == s.drop_last()[i]);
        }
        if exists|i: int| 0 <= i < s.len() && (#[trigger] s[i]).0@ == k {
            let i = choose|i: int| 0 <= i < s.len() && (#[trigger] s[i]).0@ == k;
            if i < s.len() - 1 {
                assert(s.drop_last()[i] == s[i]);
            }
        }
        assert forall|i: int| 0 <= i < s.len() && (#[trigger] s[i]).0@ == k implies view_entries(
            s,
        )[k] == view_value(s[i].1) by {
            if i < s.len() - 1 {
                assert(s.drop_last()[i] == s[i]);
            }
        }
    }
}

pub proof fn lemma_sorted_distinct(s: Seq<(String, Value)>)
    requires
        sorted_keys(s),
    ensures
        forall|a: int, b: int| 0 <= a < b < s.len() ==> (#[trigger] s[a]).0@ != (#[trigger] s[b]).0@,
{
    assert forall|a: int, b: int| 0 <= a < b < s.len() implies (#[trigger] s[a]).0@ != (
    #[trigger] s[b]).0@ by {
        assert(key_less(s[a].0@, s[b].0@));
        lemma_key_less_irreflexive(s[a].0@);
    }
}

impl Clone for Value {
    /// A copy with the same content, and sorted wherever the original is.
    fn clone(&self) -> (r: Self)
        ensures
            r@ == self@,
            wf_value(*self) ==> wf_value(r),
        decreases self,
    {
        match self {
            Value::Null => Value::Null,
            Value::Bool(b) => Value::Bool(*b),
            Value::Num(t) => Value::Num(t.clone()),
            Value::Str(t) => Value::Str(t.clone()),
            Value::Arr(items) => {
                let mut out: Vec<Value> = Vec::new();
                assert(items@.take(0) =~= Seq::<Value>::empty());
                for i in 0..items.len()
                    invariant
                        *self == Value::Arr(*items),
                        view_items(out@) == view_items(items@.take(i as int)),
                        wf_items(items@.take(i as int)) ==> wf_items(out@),
                {
                    proof {
                        assert(items@.take(i + 1).drop_last() =~= items@.take(i as int));
                        assert(items@.take(i + 1).last() == items@[i as int]);
                        assert(decreases_to!(*self => self->Arr_0));
                        assert(decreases_to!(*items => items@));
                        assert(decreases_to!(items@ => items@[i as int]));
                    }
                    let v = items[i].clone();
                    let ghost before = out@;
                    proof {
                        lemma_view_items_push(before, v);
                        assert(before.push(v).drop_last() =~= before);
                    }
                    out.push(v);
                }
                assert(items@.take(items.len() as int) =~= items@);
                Value::Arr(out)
            },
            Value::Obj(es) => {
                let mut out: Vec<(String, Value)> = Vec::new();
                assert(es@.take(0) =~= Seq::<(String, Value)>::empty());
                for i in 0..es.len()
                    invariant
                        *self == Value::Obj(*es),
                        out@.len() == i,
                        view_entries(out@) == view_entries(es@.take(i as int)),
                        forall|k: int| 0 <= k < i ==> (#[trigger] out@[k]).0@ == es@[k].0@,
                        forall|k: int| 0 <= k < i && wf_value(es@[k].1) ==> wf_value(#[trigger] out@[k].1),
                {
                    proof {
                        assert(es@.take(i + 1).drop_last() =~= es@.take(i as int));
                        assert(es@.take(i + 1).last() == es@[i as int]);
                        assert(decreases_to!(*self => self->Obj_0));
                        assert(decreases_to!(*es => es@));
                        assert(decreases_to!(es@ => es@[i as int]));
                        assert(decreases_to!(es@[i as int] => es@[i as int].1));
                    }
                    let key = es[i].0.clone();
                    let v = es[i].1.clone();
                    let ghost before = out@;
                    proof {
                        lemma_view_entries_push(before, (key, v));
                    }
                    out.push((key, v));
                }
                proof {
                    assert(es@.take(es.len() as int) =~= es@);
                    lemma_wf_entries(es@);
                    lemma_wf_entries(out@);
                    if sorted_keys(es@) {
                        assert forall|a: int, b: int| 0 <= a < b < out@.len() implies key_less(
                            #[trigger] out@[a].0@,
                            #[trigger] out@[b].0@,
                        ) by {
                            assert(key_less(es@[a].0@, es@[b].0@));
                        }
                    }
                }
                Value::Obj(out)
            },
        }
    }
}

/// Whether key `a` sorts before key `b`.
pub fn key_precedes(a: &[char], b: &[char]) -> (r: bool)
    ensures
        r == key_less(a@, b@),
{
    let mut i: usize = 0;
    assert(a@.skip(0) =~= a@);
    assert(b@.skip(0) =~= b@);
    loop
        invariant
            i <= a.len(),
            i <= b.len(),
            key_less(a@, b@) == key_less(a@.skip(i as int), b@.skip(i as int)),
        decreases a.len() - i,
    {
        if i == a.len() {
            return i < b.len();
        }
        if i == b.len() {
            return false;
        }
        if a[i] < b[i] {
            return true;
        }
        if a[i] != b[i] {
            return false;
        }
        assert(a@.skip(i as int).drop_first() =~= a@.skip(i + 1));
        assert(b@.skip(i as int).drop_first() =~= b@.skip(i + 1));
        i = i + 1;
    }
}

/// Whether two keys are the same.
pub fn same_chars(a: &[char], b: &[char]) -> (r: bool)
    ensures
        r == (a@ == b@),
{
    if a.len() != b.len() {
        return false;
    }
    for i in 0..a.len()
        invariant
            a.len() == b.len(),
            a@.take(i as int) == b@.take(i as int),
    {
        if a[i] != b[i] {
            assert(a@[i as int] != b@[i as int]);
            return false;
        }
        assert(a@.take(i + 1) =~= a@.take(i as int).push(a@[i as int]));
        assert(b@.take(i + 1) =~= b@.take(i as int).push(b@[i as int]));
    }
    assert(a@ =~= a@.take(a.len() as int));
    assert(b@ =~= b@.take(b.len() as int));
    true
}

pub open spec fn keys_agree(es: Seq<(String, Value)>, ks: Seq<Vec<char>>) -> bool {
    &&& es.len() == ks.len()
    &&& forall|i: int| 0 <= i < es.len() ==> (#[trigger] ks[i])@ == es[i].0@
}

/// Adds a member to a sorted object, replacing the value of a key it already has.
fn insert_entry(
    entries: &mut Vec<(String, Value)>,
    keys: &mut Vec<Vec<char>>,
    k: Vec<char>,
    v: Value,
)
    requires
        keys_agree(old(entries)@, old(keys)@),
        sorted_keys(old(entries)@),
        wf_entries(old(entries)@),
        wf_value(v),
    ensures
        keys_agree(final(entries)@, final(keys)@),
        sorted_keys(final(entries)@),
        wf_entries(final(entries)@),
        view_entries(final(entries)@) == view_entries(old(entries)@).insert(k@, view_value(v)),
{
    let ghost s = entries@;
    proof {
        lemma_wf_entries(s);
        lemma_sorted_distinct(s);
    }
    let mut idx: usize = 0;
    while idx < keys.len()
        invariant
            idx <= keys.len(),
            keys_agree(entries@, keys@),
            entries@ == s,
            forall|j: int| 0 <= j < idx ==> key_less(#[trigger] s[j].0@, k@),
        ensures
            idx <= keys.len(),
            keys_agree(entries@, keys@),
            entries@ == s,
            forall|j: int| 0 <= j < idx ==> key_less(#[trigger] s[j].0@, k@),
            idx < keys.len() ==> !key_less(s[idx as int].0@, k@),
        decreases keys.len() - idx,
    {
        if !key_precedes(keys[idx].as_slice(), k.as_slice()) {
            break;
        }
        idx = idx + 1;
    }
    // every member before idx sorts before k; the one at idx (if any) does not
    let key_string = crate::text::string_of(k.as_slice());
    if idx < keys.len() && same_chars(keys[idx].as_slice(), k.as_slice()) {
        proof {
            assert forall|j: int| 0 <= j < s.len() && j != idx implies (#[trigger] s[j]).0@ != k@ by {
                assert(s[idx as int].0@ == k@);
            }
            lemma_view_entries_update(s, idx as int, (key_string, v));
        }
        entries.set(idx, (key_string, v));
        proof {
            assert forall|a: int, b: int| 0 <= a < b < entries@.len() implies key_less(
                #[trigger] entries@[a].0@,
                #[trigger] entries@[b].0@,
            ) by {
                assert(s[a].0@ == entries@[a].0@ && s[b].0@ == entries@[b].0@);
            }
            lemma_wf_entries(entries@);
        }
    } else {
        proof {
            if idx < keys.len() {
                assert(keys@[idx as int]@ == s[idx as int].0@);
                lemma_key_less_total(k@, s[idx as int].0@);
            }
            assert forall|j: int| 0 <= j < s.len() implies (#[trigger] s[j]).0@ != k@ by {
                if j < idx {
                    lemma_key_less_irreflexive(k@);
                } else {
                    lemma_key_less_irreflexive(k@);
                    if j > idx {
                        lemma_key_less_transitive(k@, s[idx as int].0@, s[j].0@);
                    }
                }
            }
            lemma_view_entries_insert(s, idx as int, (key_string, v));
        }
        entries.insert(idx, (key_string, v));
        keys.insert(idx, k);
        proof {
            let t = entries@;
            assert(t == s.insert(idx as int, (key_string, v)));
            assert forall|a: int, b: int| 0 <= a < b < t.len() implies key_less(
                #[trigger] t[a].0@,
                #[trigger] t[b].0@,
            ) by {
                if b < idx {
                    assert(t[a] == s[a] && t[b] == s[b]);
                } else if b == idx {
                    assert(t[a] == s[a]);
                } else if a == idx {
                    assert(t[b] == s[b - 1]);
                    if b - 1 > idx {
                        lemma_key_less_transitive(k@, s[idx as int].0@, s[b - 1].0@);
                    }
                } else if a < idx {
                    assert(t[a] == s[a] && t[b] == s[b - 1]);
                } else {
                    assert(t[a] == s[a - 1] && t[b] == s[b - 1]);
                }
            }
            assert forall|i: int| 0 <= i < t.len() implies (#[trigger] keys@[i])@ == t[i].0@ by {
                if i < idx {
                    assert(t[i] == s[i]);
                } else if i > idx {
                    assert(t[i] == s[i - 1]);
                }
            }
            assert forall|i: int| 0 <= i < t.len() implies wf_value(#[trigger] t[i].1) by {
                if i < idx {
                    assert(t[i] == s[i]);
                } else if i > idx {
                    assert(t[i] == s[i - 1]);
                }
            }
            lemma_wf_entries(t);
        }
    }
}

pub proof fn lemma_shift_shift<T>(a: nat, b: nat, r: Result<(T, nat), SyntaxError>)
    ensures
        shift(a, shift(b, r)) == shift(a + b, r),
{
}

fn text_at(prefix: &str, i: usize) -> (r: String)
    ensures
        r@ == prefix@ + decimal(i as nat),
{
    let mut r = String::from_str(prefix);
    push_decimal(&mut r, i as u64);
    r
}

fn expected_found(c: char, got: char, at: usize) -> (r: String)
    ensures
        r@ == message(SyntaxError::Expected(c, got, at as nat)),
{
    let mut r = String::from_str("expected `");
    r.push(c);
    r.append("`, found `");
    r.push(got);
    r.append("` at ");
    push_decimal(&mut r, at as u64);
    proof {
        assert(r@ =~= message(SyntaxError::Expected(c, got, at as nat)));
    }
    r
}

fn expected_at_end(c: char) -> (r: String)
    ensures
        r@ == message(SyntaxError::ExpectedAtEnd(c)),
{
    let mut r = String::from_str("expected `");
    r.push(c);
    r.append("`, found end of input");
    proof {
        assert(r@ =~= message(SyntaxError::ExpectedAtEnd(c)));
    }
    r
}

fn bad_escape(c: Option<char>) -> (r: String)
    ensures
        r@ == message(SyntaxError::BadEscape(c)),
{
    let mut r = String::from_str("bad escape `\\");
    let d = debug_char(c);
    r.append(d.as_str());
    r.append("`");
    r
}

fn bad_hex_digit(c: char) -> (r: String)
    ensures
        r@ == message(SyntaxError::BadHexDigit(c)),
{
    let mut r = String::from_str("bad hex digit `");
    r.push(c);
    r.append("`");
    proof {
        assert(r@ =~= message(SyntaxError::BadHexDigit(c)));
    }
    r
}

fn bad_number(t: &[char]) -> (r: String)
    ensures
        r@ == message(SyntaxError::BadNumber(t@)),
{
    let mut r = String::from_str("bad number `");
    crate::text::push_chars(&mut r, t);
    r.append("`");
    r
}

fn hex_digit(c: char) -> (r: Option<u32>)
    ensures
        r matches Some(d) ==> hex_value(c) == Some(d as nat) && d < 16,
        r is None ==> hex_value(c) is None,
{
    if '0' <= c && c <= '9' {
        Some(c as u32 - '0' as u32)
    } else if 'a' <= c && c <= 'f' {
        Some(c as u32 - 'a' as u32 + 10)
    } else if 'A' <= c && c <= 'F' {
        Some(c as u32 - 'A' as u32 + 10)
    } else {
        None
    }
}

fn number_char(c: char) -> (r: bool)
    ensures
        r == is_number_char(c),
{
    ('0' <= c && c <= '9') || c == '-' || c == '+' || c == '.' || c == 'e' || c == 'E'
}

fn digits_from(t: &[char], i: usize) -> (r: usize)
    requires
        i <= t.len(),
    ensures
        r == i + digit_run(t@, i as nat),
        r <= t.len(),
{
    let mut j = i;
    while j < t.len() && '0' <= t[j] && t[j] <= '9'
        invariant
            i <= j <= t.len(),
            digit_run(t@, i as nat) == (j - i) + digit_run(t@, j as nat),
        decreases t.len() - j,
    {
        j = j + 1;
    }
    j
}

fn sign_from(t: &[char], i: usize) -> (r: usize)
    requires
        i <= t.len(),
    ensures
        r == i + sign_len(t@, i as nat),
        r <= t.len(),
{
    if i < t.len() && (t[i] == '+' || t[i] == '-') {
        i + 1
    } else {
        i
    }
}

/// Whether the text has the shape of a Rust float literal (what `f64::from_str` accepts,
/// `inf` and `nan` aside).
pub fn float_text(t: &[char]) -> (r: bool)
    ensures
        r == is_float_text(t@),
{
    let k = sign_from(t, 0);
    let a = digits_from(t, k);
    let has_point = a < t.len() && t[a] == '.';
    let b = if has_point {
        digits_from(t, a + 1)
    } else {
        a
    };
    let mantissa = a > k || (has_point && b > a + 1);
    if !mantissa {
        return false;
    }
    if b == t.len() {
        return true;
    }
    if t[b] != 'e' && t[b] != 'E' {
        return false;
    }
    let f = sign_from(t, b + 1);
    let g = digits_from(t, f);
    g > f && g == t.len()
}

struct Parser {
    b: Vec<char>,
    i: usize,
}

impl Parser {
    fn peek(&self) -> (r: Option<char>)
        ensures
            r == (if self.i < self.b.len() {
                Some(self.b@[self.i as int])
            } else {
                None::<char>
            }),
    {
        if self.i < self.b.len() {
            Some(self.b[self.i])
        } else {
            None
        }
    }

    fn bump(&mut self) -> (r: Option<char>)
        requires
            old(self).i <= old(self).b.len(),
        ensures
            final(self).b == old(self).b,
            final(self).i <= final(self).b.len(),
            r == (if old(self).i < old(self).b.len() {
                Some(old(self).b@[old(self).i as int])
            } else {
                None::<char>
            }),
            final(self).i == (if old(self).i < old(self).b.len() {
                old(self).i + 1
            } else {
                old(self).i as int
            }),
    {
        let c = self.peek();
        if c.is_some() {
            self.i = self.i + 1;
        }
        c
    }

    fn ws(&mut self)
        requires
            old(self).i <= old(self).b.len(),
        ensures
            final(self).b == old(self).b,
            final(self).i == old(self).i + ws_len(old(self).b@, old(self).i as nat),
            final(self).i <= final(self).b.len(),
    {
        let ghost s = self.b@;
        let ghost start = self.i as nat;
        while self.i < self.b.len() && white_space(self.b[self.i])
            invariant
                self.b == old(self).b,
                self.b@ == s,
                start <= self.i <= self.b.len(),
                ws_len(s, start) == (self.i - start) + ws_len(s, self.i as nat),
            decreases self.b.len() - self.i,
        {
            self.i = self.i + 1;
        }
    }

    fn expect(&mut self, c: char) -> (r: Result<(), String>)
        requires
            old(self).i <= old(self).b.len(),
        ensures
            final(self).b == old(self).b,
            final(self).i <= final(self).b.len(),
            ({
                let s = old(self).b@;
                let i = old(self).i as int;
                if i >= s.len() {
                    r matches Err(m) && m@ == message(SyntaxError::ExpectedAtEnd(c))
                } else if s[i] != c {
                    r matches Err(m) && m@ == message(SyntaxError::Expected(c, s[i], i as nat))
                } else {
                    r is Ok && final(self).i == i + 1
                }
            }),
    {
        match self.bump() {
            Some(got) => {
                if got == c {
                    Ok(())
                } else {
                    Err(expected_found(c, got, self.i - 1))
                }
            },
            None => Err(expected_at_end(c)),
        }
    }

    fn literal(&mut self, word: &[char], v: Value) -> (r: Result<Value, String>)
        requires
            old(self).i <= old(self).b.len(),
        ensures
            final(self).b == old(self).b,
            final(self).i <= final(self).b.len(),
            match literal(old(self).b@, old(self).i as nat, word@, view_value(v)) {
                Ok((x, n)) => r matches Ok(y) && y == v && final(self).i == old(self).i + n,
                Err(e) => r matches Err(m) && m@ == message(e),
            },
    {
        let ghost s = self.b@;
        if word.len() <= self.b.len() - self.i {
            let mut k: usize = 0;
            while k < word.len()
                invariant
                    k <= word.len(),
                    self.b == old(self).b,
                    self.i == old(self).i,
                    self.b@ == s,
                    self.b.len() == s.len(),
                    self.i + word.len() <= s.len(),
                    s.subrange(self.i as int, self.i + k) == word@.take(k as int),
                decreases word.len() - k,
            {
                if self.b[self.i + k] != word[k] {
                    proof {
                        assert(s.subrange(self.i as int, self.i + word.len())[k as int] != word@[k as int]);
                    }
                    return Err(text_at("invalid literal at ", self.i));
                }
                proof {
                    assert(s.subrange(self.i as int, self.i + k + 1) =~= s.subrange(self.i as int, self.i + k).push(s[self.i + k]));
                    assert(word@.take(k + 1) =~= word@.take(k as int).push(word@[k as int]));
                }
                k = k + 1;
            }
            proof {
                assert(word@.take(word.len() as int) =~= word@);
            }
            self.i = self.i + word.len();
            Ok(v)
        } else {
            Err(text_at("invalid literal at ", self.i))
        }
    }

    fn hex4(&mut self) -> (r: Result<u32, String>)
        requires
            old(self).i <= old(self).b.len(),
        ensures
            final(self).b == old(self).b,
            final(self).i <= final(self).b.len(),
            match hex4(old(self).b@, old(self).i as nat) {
                Ok(v) => r == Ok::<u32, String>(v as u32) && v < 0x10000 && final(self).i == old(self).i + 4,
                Err(e) => r matches Err(m) && m@ == message(e),
            },
    {
        let ghost s = self.b@;
        let ghost start = self.i as nat;
        let mut n: u32 = 0;
        let mut k: usize = 0;
        while k < 4
            invariant
                self.b == old(self).b,
                self.b@ == s,
                start == old(self).i,
                k <= 4,
                self.i == start + k,
                self.i <= self.b.len(),
                hex4(s, start) == hex_run(s, start, k as nat, n as nat),
                k == 0 ==> n == 0,
                k == 1 ==> n < 16,
                k == 2 ==> n < 256,
                k == 3 ==> n < 4096,
                k == 4 ==> n < 65536,
            decreases 4 - k,
        {
            let c = match self.bump() {
                Some(c) => c,
                None => {
                    return Err(String::from_str("truncated \\u escape"));
                },
            };
            let d = match hex_digit(c) {
                Some(d) => d,
                None => {
                    return Err(bad_hex_digit(c));
                },
            };
            n = n * 16 + d;
            k = k + 1;
        }
        Ok(n)
    }

    fn unicode_escape(&mut self) -> (r: Result<char, String>)
        requires
            old(self).i <= old(self).b.len(),
        ensures
            final(self).b == old(self).b,
            final(self).i <= final(self).b.len(),
            match unicode_escape(old(self).b@, old(self).i as nat) {
                Ok((c, n)) => r == Ok::<char, String>(c) && final(self).i == old(self).i + n,
                Err(e) => r matches Err(m) && m@ == message(e),
            },
    {
        let hi = self.hex4()?;
        if 0xD800 <= hi && hi < 0xDC00 {
            if self.i < self.b.len() && self.i + 1 < self.b.len() && self.b[self.i] == '\\' && self.b[self.i + 1] == 'u' {
                let after_hi = self.i;
                self.i = self.i + 2;
                let lo = self.hex4()?;
                if 0xDC00 <= lo && lo < 0xE000 {
                    let c = 0x10000 + (hi - 0xD800) * 1024 + (lo - 0xDC00);
                    return Ok(
                        match char::from_u32(c) {
                            Some(ch) => ch,
                            None => '\u{FFFD}',
                        },
                    );
                }
                self.i = after_hi;
            }
            return Ok('\u{FFFD}');
        }
        Ok(
            match char::from_u32(hi) {
                Some(ch) => ch,
                None => '\u{FFFD}',
            },
        )
    }

    fn string(&mut self) -> (r: Result<Vec<char>, String>)
        requires
            old(self).i <= old(self).b.len(),
        ensures
            final(self).b == old(self).b,
            final(self).i <= final(self).b.len(),
            match string_at(old(self).b@, old(self).i as nat) {
                Ok((t, n)) => r matches Ok(x) && x@ == t && final(self).i == old(self).i + n,
                Err(e) => r matches Err(m) && m@ == message(e),
            },
    {
        let ghost s = self.b@;
        let ghost start = self.i as nat;
        self.expect('"')?;
        let mut out: Vec<char> = Vec::new();
        loop
            invariant
                self.b == old(self).b,
                self.b@ == s,
                start == old(self).i,
                start < self.i <= self.b.len(),
                string_at(s, start) == shift((self.i - start) as nat, string_body(s, self.i as nat, out@)),
            decreases self.b.len() - self.i,
        {
            let ghost i0 = self.i as nat;
            match self.bump() {
                None => {
                    return Err(String::from_str("unterminated string"));
                },
                Some(c) => {
                    if c == '"' {
                        return Ok(out);
                    } else if c == '\\' {
                        let e = self.bump();
                        match e {
                            None => {
                                return Err(bad_escape(e));
                            },
                            Some(x) => {
                                let ghost acc = out@;
                                if x == 'u' {
                                    let ch = self.unicode_escape()?;
                                    out.push(ch);
                                    proof {
                                        lemma_shift_shift((i0 - start) as nat, (self.i - i0) as nat, string_body(s, self.i as nat, out@));
                                    }
                                } else {
                                    let simple = if x == '"' {
                                        '"'
                                    } else if x == '\\' {
                                        '\\'
                                    } else if x == '/' {
                                        '/'
                                    } else if x == 'n' {
                                        '\n'
                                    } else if x == 't' {
                                        '\t'
                                    } else if x == 'r' {
                                        '\r'
                                    } else if x == 'b' {
                                        '\u{8}'
                                    } else if x == 'f' {
                                        '\u{c}'
                                    } else {
                                        return Err(bad_escape(e));
                                    };
                                    out.push(simple);
                                    proof {
                                        lemma_shift_shift((i0 - start) as nat, 2, string_body(s, self.i as nat, out@));
                                    }
                                }
                            },
                        }
                    } else {
                        out.push(c);
                        proof {
                            lemma_shift_shift((i0 - start) as nat, 1, string_body(s, self.i as nat, out@));
                        }
                    }
                },
            }
        }
    }

    fn number(&mut self) -> (r: Result<Value, String>)
        requires
            old(self).i <= old(self).b.len(),
        ensures
            final(self).b == old(self).b,
            final(self).i <= final(self).b.len(),
            match number(old(self).b@, old(self).i as nat) {
                Ok((v, n)) => r matches Ok(x) && view_value(x) == v && wf_value(x) && final(self).i == old(self).i + n,
                Err(e) => r matches Err(m) && m@ == message(e),
            },
    {
        let ghost s = self.b@;
        let start = self.i;
        while self.i < self.b.len() && number_char(self.b[self.i])
            invariant
                self.b == old(self).b,
                self.b@ == s,
                start == old(self).i,
                start <= self.i <= self.b.len(),
                number_run(s, start as nat) == (self.i - start) + number_run(s, self.i as nat),
            decreases self.b.len() - self.i,
        {
            self.i = self.i + 1;
        }
        let mut text: Vec<char> = Vec::new();
        let mut k = start;
        while k < self.i
            invariant
                self.b@ == s,
                self.b == old(self).b,
                start == old(self).i,
                start <= k <= self.i <= s.len(),
                text@ == s.subrange(start as int, k as int),
            decreases self.i - k,
        {
            text.push(self.b[k]);
            proof {
                assert(s.subrange(start as int, k + 1) =~= s.subrange(start as int, k as int).push(s[k as int]));
            }
            k = k + 1;
        }
        if float_text(text.as_slice()) {
            Ok(Value::Num(string_of(text.as_slice())))
        } else {
            Err(bad_number(text.as_slice()))
        }
    }

    fn value(&mut self) -> (r: Result<Value, String>)
        requires
            old(self).i <= old(self).b.len(),
        ensures
            final(self).b == old(self).b,
            final(self).i <= final(self).b.len(),
            match value(old(self).b@, old(self).i as nat) {
                Ok((v, n)) => r matches Ok(x) && view_value(x) == v && wf_value(x) && final(self).i == old(self).i + n,
                Err(e) => r matches Err(m) && m@ == message(e),
            },
        decreases old(self).b.len() - old(self).i, 1int,
    {
        match self.peek() {
            Some(c) => {
                if c == '{' {
                    self.object()
                } else if c == '[' {
                    self.array()
                } else if c == '"' {
                    let t = self.string()?;
                    Ok(Value::Str(string_of(t.as_slice())))
                } else if c == 't' {
                    self.literal(&['t', 'r', 'u', 'e'], Value::Bool(true))
                } else if c == 'f' {
                    self.literal(&['f', 'a', 'l', 's', 'e'], Value::Bool(false))
                } else if c == 'n' {
                    self.literal(&['n', 'u', 'l', 'l'], Value::Null)
                } else {
                    self.number()
                }
            },
            None => Err(String::from_str("unexpected end of input")),
        }
    }

    fn object(&mut self) -> (r: Result<Value, String>)
        requires
            old(self).i < old(self).b.len(),
            old(self).b@[old(self).i as int] == '{',
        ensures
            final(self).b == old(self).b,
            final(self).i <= final(self).b.len(),
            match shift(1, object(old(self).b@, (old(self).i + 1) as nat)) {
                Ok((v, n)) => r matches Ok(x) && view_value(x) == v && wf_value(x) && final(self).i == old(self).i + n,
                Err(e) => r matches Err(m) && m@ == message(e),
            },
        decreases old(self).b.len() - old(self).i, 0int,
    {
        let ghost s = self.b@;
        let ghost open_at = (self.i + 1) as nat;
        self.expect('{')?;
        let mut entries: Vec<(String, Value)> = Vec::new();
        let mut keys: Vec<Vec<char>> = Vec::new();
        self.ws();
        proof {
            crate::json_spec::lemma_ws_len(s, open_at);
        }
        if self.i < self.b.len() && self.b[self.i] == '}' {
            self.i = self.i + 1;
            return Ok(Value::Obj(entries));
        }
        proof {
            assert(view_entries(entries@) =~= Map::<Seq<char>, JsonValue>::empty());
        }
        loop
            invariant
                self.b == old(self).b,
                self.b@ == s,
                open_at == old(self).i + 1,
                open_at <= self.i <= self.b.len(),
                keys_agree(entries@, keys@),
                sorted_keys(entries@),
                wf_entries(entries@),
                object(s, open_at) == shift((self.i - open_at) as nat, members(s, self.i as nat, view_entries(entries@))),
            decreases self.b.len() - self.i,
        {
            let ghost i0 = self.i as nat;
            let ghost acc = view_entries(entries@);
            self.ws();
            let k = self.string()?;
            self.ws();
            self.expect(':')?;
            self.ws();
            let v = self.value()?;
            let ghost kv = k@;
            insert_entry(&mut entries, &mut keys, k, v);
            self.ws();
            let ghost p5 = self.i as nat;
            match self.bump() {
                Some(c) => {
                    if c == ',' {
                        proof {
                            lemma_shift_shift((i0 - open_at) as nat, (p5 + 1 - i0) as nat, members(s, self.i as nat, view_entries(entries@)));
                        }
                    } else if c == '}' {
                        return Ok(Value::Obj(entries));
                    } else {
                        return Err(text_at("malformed object near ", self.i));
                    }
                },
                None => {
                    return Err(text_at("malformed object near ", self.i));
                },
            }
        }
    }

    fn array(&mut self) -> (r: Result<Value, String>)
        requires
            old(self).i < old(self).b.len(),
            old(self).b@[old(self).i as int] == '[',
        ensures
            final(self).b == old(self).b,
            final(self).i <= final(self).b.len(),
            match shift(1, array(old(self).b@, (old(self).i + 1) as nat)) {
                Ok((v, n)) => r matches Ok(x) && view_value(x) == v && wf_value(x) && final(self).i == old(self).i + n,
                Err(e) => r matches Err(m) && m@ == message(e),
            },
        decreases old(self).b.len() - old(self).i, 0int,
    {
        let ghost s = self.b@;
        let ghost open_at = (self.i + 1) as nat;
        self.expect('[')?;
        let mut items: Vec<Value> = Vec::new();
        self.ws();
        proof {
            crate::json_spec::lemma_ws_len(s, open_at);
        }
        if self.i < self.b.len() && self.b[self.i] == ']' {
            self.i = self.i + 1;
            proof {
                assert(view_items(items@) =~= Seq::<JsonValue>::empty());
            }
            return Ok(Value::Arr(items));
        }
        proof {
            assert(view_items(items@) =~= Seq::<JsonValue>::empty());
        }
        loop
            invariant
                self.b == old(self).b,
                self.b@ == s,
                open_at == old(self).i + 1,
                open_at <= self.i <= self.b.len(),
                wf_items(items@),
                array(s, open_at) == shift((self.i - open_at) as nat, elements(s, self.i as nat, view_items(items@))),
            decreases self.b.len() - self.i,
        {
            let ghost i0 = self.i as nat;
            self.ws();
            let v = self.value()?;
            let ghost before = items@;
            items.push(v);
            proof {
                lemma_view_items_push(before, v);
                assert(items@.drop_last() =~= before);
            }
            self.ws();
            let ghost q = self.i as nat;
            match self.bump() {
                Some(c) => {
                    if c == ',' {
                        proof {
                            lemma_shift_shift((i0 - open_at) as nat, (q + 1 - i0) as nat, elements(s, self.i as nat, view_items(items@)));
                        }
                    } else if c == ']' {
                        return Ok(Value::Arr(items));
                    } else {
                        return Err(text_at("malformed array near ", self.i));
                    }
                },
                None => {
                    return Err(text_at("malformed array near ", self.i));
                },
            }
        }
    }
}

/// The first member of `es` under key `k`.
pub open spec fn first_match(es: Seq<(String, Value)>, k: Seq<char>) -> Option<Value>
    decreases es.len(),
{
    if es.len() == 0 {
        None
    } else if es[0].0@ == k {
        Some(es[0].1)
    } else {
        first_match(es.drop_first(), k)
    }
}

/// The member of an object under key `k`; nothing for any other shape.
pub open spec fn field(v: Value, k: Seq<char>) -> Option<Value> {
    match v {
        Value::Obj(es) => first_match(es@, k),
        _ => None,
    }
}

/// Follows a chain of object keys.
pub open spec fn follow(v: Value, ks: Seq<Seq<char>>) -> Option<Value>
    decreases ks.len(),
{
    if ks.len() == 0 {
        Some(v)
    } else {
        match field(v, ks[0]) {
            Some(w) => follow(w, ks.drop_first()),
            None => None,
        }
    }
}

pub proof fn lemma_first_match(es: Seq<(String, Value)>, k: Seq<char>)
    ensures
        first_match(es, k) matches Some(x) ==> exists|i: int|
            0 <= i < es.len() && (#[trigger] es[i]).0@ == k && es[i].1 == x,
        first_match(es, k) is None ==> forall|i: int| 0 <= i < es.len() ==> (#[trigger] es[i]).0@ != k,
    decreases es.len(),
{
    if es.len() > 0 {
        lemma_first_match(es.drop_first(), k);
        if es[0].0@ != k {
            if let Some(x) = first_match(es, k) {
                let i = choose|i: int| 0 <= i < es.drop_first().len() && (#[trigger] es.drop_first()[i]).0@ == k && es.drop_first()[i].1 == x;
                assert(es[i + 1] == es.drop_first()[i]);
            } else {
                assert forall|i: int| 0 <= i < es.len() implies (#[trigger] es[i]).0@ != k by {
                    if i > 0 {
                        assert(es[i] == es.drop_first()[i - 1]);
                    }
                }
            }
        }
    }
}

/// On a well-formed object, reading a member agrees with the map the object denotes:
/// `get` finds a key exactly when the object has it, and returns that key's value.
pub proof fn law_get_reads_the_map(v: Value, k: Seq<char>)
    requires
        wf_value(v),
        v is Obj,
    ensures
        field(v, k) matches Some(x) ==> v@->Obj_0.dom().contains(k) && v@->Obj_0[k] == x@,
        field(v, k) is None ==> !v@->Obj_0.dom().contains(k),
{
    let es = v->Obj_0@;
    lemma_sorted_distinct(es);
    lemma_view_entries_lookup(es, k);
    lemma_first_match(es, k);
}

/// A member of a well-formed object is well formed.
pub proof fn lemma_field_wf(v: Value, k: Seq<char>)
    requires
        wf_value(v),
    ensures
        field(v, k) matches Some(x) ==> wf_value(x),
{
    if let Value::Obj(es) = v {
        lemma_wf_entries(es@);
        lemma_first_match(es@, k);
    }
}

impl Value {
    /// Field of an object, or `None` for any other shape.
    pub fn get(&self, key: &str) -> (r: Option<&Value>)
        ensures
            r matches Some(x) ==> field(*self, key@) == Some(*x),
            r is None ==> field(*self, key@) is None,
    {
        match self {
            Value::Obj(m) => {
                let k = String::from_str(key);
                let mut i: usize = 0;
                assert(m@.skip(0) =~= m@);
                while i < m.len()
                    invariant
                        i <= m.len(),
                        k@ == key@,
                        field(*self, key@) == first_match(m@, key@),
                        first_match(m@, key@) == first_match(m@.skip(i as int), key@),
                    decreases m.len() - i,
                {
                    if m[i].0 == k {
                        return Some(&m[i].1);
                    }
                    assert(m@.skip(i as int).drop_first() =~= m@.skip(i + 1));
                    i = i + 1;
                }
                None
            },
            _ => None,
        }
    }

    /// Follow a chain of object keys: `v.path(&["result", "agents"])`.
    pub fn path(&self, keys: &[&str]) -> (r: Option<&Value>)
        ensures
            r matches Some(x) ==> follow(*self, keys@.map_values(|k: &str| k@)) == Some(*x),
            r is None ==> follow(*self, keys@.map_values(|k: &str| k@)) is None,
    {
        let ghost ks = keys@.map_values(|k: &str| k@);
        let mut cur: &Value = self;
        assert(ks.skip(0) =~= ks);
        for i in 0..keys.len()
            invariant
                ks == keys@.map_values(|k: &str| k@),
                follow(*self, ks) == follow(*cur, ks.skip(i as int)),
        {
            assert(ks.skip(i as int)[0] == keys@[i as int]@);
            assert(ks.skip(i as int).drop_first() =~= ks.skip(i + 1));
            match cur.get(keys[i]) {
                Some(w) => {
                    cur = w;
                },
                None => {
                    return None;
                },
            }
        }
        assert(ks.skip(keys.len() as int) =~= Seq::<Seq<char>>::empty());
        Some(cur)
    }

    pub fn as_str(&self) -> (r: Option<&str>)
        ensures
            r matches Some(x) ==> self matches Value::Str(t) && x@ == t@,
            r is None ==> !(self is Str),
    {
        match self {
            Value::Str(s) => Some(s.as_str()),
            _ => None,
        }
    }

    pub fn as_array(&self) -> (r: Option<&[Value]>)
        ensures
            r matches Some(x) ==> self matches Value::Arr(a) && x@ == a@,
            r is None ==> !(self is Arr),
    {
        match self {
            Value::Arr(a) => Some(a.as_slice()),
            _ => None,
        }
    }

    /// A string field of this object. Absent and `null` (or any non-string) both read as
    /// `None`: for every field read here, the two mean the same thing.
    pub fn str_field(&self, key: &str) -> (r: Option<&str>)
        ensures
            r matches Some(x) ==> field(*self, key@) matches Some(Value::Str(t)) && x@ == t@,
            r is None ==> !(field(*self, key@) matches Some(Value::Str(_))),
    {
        match self.get(key) {
            Some(v) => v.as_str(),
            None => None,
        }
    }

    /// The literal text of a number field, for the caller to read as a float.
    pub fn num_text_field(&self, key: &str) -> (r: Option<&str>)
        ensures
            r matches Some(x) ==> field(*self, key@) matches Some(Value::Num(t)) && x@ == t@,
            r is None ==> !(field(*self, key@) matches Some(Value::Num(_))),
    {
        match self.get(key) {
            Some(v) => match v {
                Value::Num(t) => Some(t.as_str()),
                _ => None,
            },
            None => None,
        }
    }
}

/// A lowercase hexadecimal digit.
pub open spec fn hex_lower(d: nat) -> char {
    if d < 10 {
        (('0' as u32) + d) as char
    } else {
        (('a' as u32) + d - 10) as char
    }
}

/// How one character is written inside a JSON string literal.
pub open spec fn escape_char(c: char) -> Seq<char> {
    if c == '"' {
        seq!['\\', '"']
    } else if c == '\\' {
        seq!['\\', '\\']
    } else if c == '\n' {
        seq!['\\', 'n']
    } else if c == '\r' {
        seq!['\\', 'r']
    } else if c == '\t' {
        seq!['\\', 't']
    } else if (c as u32) < 0x20 {
        seq!['\\', 'u', '0', '0', hex_lower((c as u32 / 16) as nat), hex_lower((c as u32 % 16) as nat)]
    } else {
        seq![c]
    }
}

pub open spec fn escape_all(t: Seq<char>) -> Seq<char>
    decreases t.len(),
{
    if t.len() == 0 {
        Seq::empty()
    } else {
        escape_all(t.drop_last()) + escape_char(t.last())
    }
}

/// A JSON string literal for `t`, quotes included.
pub open spec fn quoted(t: Seq<char>) -> Seq<char> {
    seq!['"'] + escape_all(t) + seq!['"']
}

fn hex_lower_digit(d: u32) -> (c: char)
    requires
        d < 16,
    ensures
        c == hex_lower(d as nat),
{
    if d < 10 {
        let b: u8 = 48u8 + (d as u8);
        b as char
    } else {
        let b: u8 = 87u8 + (d as u8);
        b as char
    }
}

/// Write a JSON string literal, quotes and escapes included.
///
/// Outbound requests only carry a method name and an id chosen here, but escaping them
/// properly removes the question of what happens if that ever stops being true.
pub fn write_str(out: &mut String, s: &str)
    ensures
        final(out)@ == old(out)@ + quoted(s@),
{
    let ghost start = out@;
    out.push('"');
    let cs = chars_of(s);
    for i in 0..cs.len()
        invariant
            cs@ == s@,
            out@ == start + seq!['"'] + escape_all(cs@.take(i as int)),
    {
        let c = cs[i];
        let ghost before = out@;
        if c == '"' {
            out.append("\\\"");
            proof { reveal_strlit("\\\""); }
        } else if c == '\\' {
            out.append("\\\\");
            proof { reveal_strlit("\\\\"); }
        } else if c == '\n' {
            out.append("\\n");
            proof { reveal_strlit("\\n"); }
        } else if c == '\r' {
            out.append("\\r");
            proof { reveal_strlit("\\r"); }
        } else if c == '\t' {
            out.append("\\t");
            proof { reveal_strlit("\\t"); }
        } else if (c as u32) < 0x20 {
            out.append("\\u00");
            proof { reveal_strlit("\\u00"); }
            out.push(hex_lower_digit(c as u32 / 16));
            out.push(hex_lower_digit(c as u32 % 16));
        } else {
            out.push(c);
        }
        proof {
            assert(cs@.take(i + 1).drop_last() =~= cs@.take(i as int));
            assert(out@ =~= before + escape_char(c));
            assert(out@ =~= start + seq!['"'] + escape_all(cs@.take(i + 1)));
        }
    }
    out.push('"');
    proof {
        assert(cs@.take(cs.len() as int) =~= s@);
        assert(out@ =~= start + quoted(s@));
    }
}

proof fn lemma_escape_all_front(c: char, t: Seq<char>)
    ensures
        escape_all(seq![c] + t) == escape_char(c) + escape_all(t),
    decreases t.len(),
{
    let u = seq![c] + t;
    if t.len() == 0 {
        assert(u.drop_last() =~= Seq::<char>::empty());
        assert(u.last() == c);
        assert(escape_all(Seq::<char>::empty()) =~= Seq::<char>::empty());
        assert(escape_all(u) == escape_all(u.drop_last()) + escape_char(u.last()));
        assert(escape_all(t) =~= Seq::<char>::empty());
        assert(escape_all(u) =~= escape_char(c) + escape_all(t));
    } else {
        assert(u.drop_last() =~= seq![c] + t.drop_last());
        assert(u.last() == t.last());
        lemma_escape_all_front(c, t.drop_last());
        assert(escape_all(u) =~= escape_char(c) + escape_all(t));
    }
}

proof fn lemma_char_code(c: char)
    ensures
        ((c as u32) as nat as int) as char == c,
        is_scalar((c as u32) as int),
{
}

proof fn lemma_hex_lower(d: nat)
    requires
        d < 16,
    ensures
        hex_value(hex_lower(d)) == Some(d),
{
}

pub proof fn lemma_read_escaped(s: Seq<char>, p: int, t: Seq<char>, acc: Seq<char>)
    requires
        0 <= p,
        p + escape_all(t).len() < s.len(),
        s.subrange(p, p + escape_all(t).len()) == escape_all(t),
        s[p + escape_all(t).len()] == '"',
    ensures
        string_body(s, p as nat, acc) == Ok::<(Seq<char>, nat), SyntaxError>((acc + t, escape_all(t).len() + 1)),
    decreases t.len(),
{
    let et = escape_all(t);
    if t.len() == 0 {
        assert(acc + t =~= acc);
    } else {
        let c = t[0];
        let rest = t.drop_first();
        assert(t =~= seq![c] + rest);
        lemma_escape_all_front(c, rest);
        let e = escape_char(c);
        let k = e.len() as int;
        let er = escape_all(rest);
        assert(et =~= e + er);
        assert forall|j: int| 0 <= j < k implies s[p + j] == e[j] by {
            assert(s.subrange(p, p + et.len())[j] == et[j]);
        }
        assert(s.subrange(p + k, p + k + er.len()) =~= er) by {
            assert forall|j: int| 0 <= j < er.len() implies s.subrange(p + k, p + k + er.len())[j] == er[j] by {
                assert(s.subrange(p, p + et.len())[k + j] == et[k + j]);
            }
        }
        lemma_read_escaped(s, p + k, rest, acc.push(c));
        assert(acc.push(c) + rest =~= acc + t);
        assert(s[p] == e[0]);
        if c == '"' || c == '\\' || c == '\n' || c == '\r' || c == '\t' {
            assert(s[p + 1] == e[1]);
        } else if (c as u32) < 0x20 {
            assert(s[p + 1] == e[1]);
            assert(s[p + 2] == e[2]);
            assert(s[p + 3] == e[3]);
            assert(s[p + 4] == e[4]);
            assert(s[p + 5] == e[5]);
            let d1 = (c as u32 / 16) as nat;
            let d2 = (c as u32 % 16) as nat;
            lemma_hex_lower(d1);
            lemma_hex_lower(d2);
            let q = (p + 2) as nat;
            assert(hex_run(s, q, 4, (0nat * 16 + 0) * 16 * 16 + d1 * 16 + d2) == Ok::<nat, SyntaxError>(
                c as u32 as nat,
            ));
            assert(hex_run(s, q, 3, (0nat * 16 + 0) * 16 + d1) == hex_run(s, q, 4, ((0nat * 16 + 0) * 16 + d1) * 16 + d2));
            assert(hex_run(s, q, 2, 0nat * 16 + 0) == hex_run(s, q, 3, (0nat * 16 + 0) * 16 + d1));
            assert(hex_run(s, q, 1, 0) == hex_run(s, q, 2, 0nat * 16 + 0));
            assert(hex_run(s, q, 0, 0) == hex_run(s, q, 1, 0));
            assert(hex4(s, q) == Ok::<nat, SyntaxError>(c as u32 as nat));
            let u = c as u32 as nat;
            lemma_char_code(c);
            assert(is_scalar(u as int));
            assert((u as int) as char == c);
            assert(char_or_replacement(u as int) == c);
            assert(unicode_escape(s, q) == Ok::<(char, nat), SyntaxError>((c, 4)));
        }
    }
}

/// No character of `t` needs escaping.
pub open spec fn plain(t: Seq<char>) -> bool {
    forall|i: int| 0 <= i < t.len() ==> (#[trigger] t[i]) != '"' && t[i] != '\\' && (t[i] as u32) >= 0x20
}

pub proof fn lemma_escape_plain(t: Seq<char>)
    requires
        plain(t),
    ensures
        escape_all(t) == t,
    decreases t.len(),
{
    if t.len() > 0 {
        let d = t.drop_last();
        assert forall|i: int| 0 <= i < d.len() implies (#[trigger] d[i]) != '"' && d[i] != '\\' && (d[i] as u32) >= 0x20 by {
            assert(d[i] == t[i]);
        }
        lemma_escape_plain(d);
        let c = t.last();
        assert(c == t[t.len() - 1]);
        lemma_char_code(c);
        assert(escape_char(c) == seq![c]);
        assert(escape_all(t) =~= t);
    }
}

/// A string literal written by `write_str` at position `p` reads as its text.
pub proof fn lemma_string_at_quoted(s: Seq<char>, p: int, t: Seq<char>)
    requires
        0 <= p,
        p + quoted(t).len() <= s.len(),
        s.subrange(p, p + quoted(t).len()) == quoted(t),
    ensures
        string_at(s, p as nat) == Ok::<(Seq<char>, nat), SyntaxError>((t, quoted(t).len())),
{
    let q = quoted(t);
    let e = escape_all(t);
    assert(s[p] == q[0]);
    assert(s.subrange(p + 1, p + 1 + e.len()) =~= e) by {
        assert forall|j: int| 0 <= j < e.len() implies s.subrange(p + 1, p + 1 + e.len())[j] == e[j] by {
            assert(s.subrange(p, p + q.len())[1 + j] == q[1 + j]);
        }
    }
    assert(s[p + 1 + e.len()] == q[1 + e.len() as int]);
    lemma_read_escaped(s, p + 1, t, Seq::empty());
    assert(Seq::<char>::empty() + t =~= t);
}

/// What `write_str` writes reads back as the text it was given: the literal parses as a
/// string holding exactly that text, and consumes the whole literal.
pub proof fn law_written_strings_read_back(t: Seq<char>)
    ensures
        string_at(quoted(t), 0) == Ok::<(Seq<char>, nat), SyntaxError>((t, quoted(t).len())),
        parse_text(quoted(t)) == Ok::<JsonValue, SyntaxError>(JsonValue::Str(t)),
{
    let q = quoted(t);
    let e = escape_all(t);
    assert(q.subrange(1, 1 + e.len() as int) =~= e);
    assert(q[1 + e.len() as int] == '"');
    lemma_read_escaped(q, 1, t, Seq::empty());
    assert(Seq::<char>::empty() + t =~= t);
    assert(ws_len(q, 0) == 0);
    assert(ws_len(q, q.len()) == 0);
}

/// Parses one JSON value, with optional whitespace around it, from the whole text.
pub fn parse(input: &str) -> (r: Result<Value, String>)
    ensures
        match parse_text(input@) {
            Ok(v) => r matches Ok(x) && x@ == v && wf_value(x),
            Err(e) => r matches Err(m) && m@ == message(e),
        },
{
    let chars = chars_of(input);
    let mut p = Parser { b: chars, i: 0 };
    p.ws();
    let v = p.value()?;
    p.ws();
    if p.i != p.b.len() {
        return Err(text_at("trailing input at char ", p.i));
    }
    Ok(v)
}

} // verus!
