//! What surrounds a JSON value: whitespace on either side of it is ignored, and anything
//! else after it is refused.

use vstd::prelude::*;
use crate::text::is_white_space;
use crate::json_spec::{
    JsonValue, SyntaxError, ws_len, lemma_ws_len, is_number_char, number_run, number, literal,
    hex_run, hex4, unicode_escape, string_body, string_at, value, object, members, array,
    elements, parse_text, lemma_hex_run, lemma_unicode_escape, simple_escape,
};

verus! {

/// Every character of `w` is whitespace.
pub open spec fn all_white(w: Seq<char>) -> bool {
    forall|i: int| 0 <= i < w.len() ==> is_white_space(#[trigger] w[i])
}

/// `s1` stands in `s2` from position `k` on.
spec fn embeds(s2: Seq<char>, s1: Seq<char>, k: nat) -> bool {
    &&& k + s1.len() <= s2.len()
    &&& forall|x: int| 0 <= x < s1.len() ==> #[trigger] s2[k + x] == s1[x]
}

/// What follows `s1` in `s2` cannot continue a number that ends `s1`.
spec fn tail_ok(s2: Seq<char>, s1: Seq<char>, k: nat) -> bool {
    k + s1.len() >= s2.len() || !is_number_char(s2[(k + s1.len()) as int])
}

proof fn lemma_white_is_not_number(c: char)
    requires
        is_white_space(c),
    ensures
        !is_number_char(c),
{
}

/// A whitespace run that ends inside `s1` has the same length in `s2`.
proof fn lemma_ws_embed(s2: Seq<char>, s1: Seq<char>, k: nat, i: nat)
    requires
        embeds(s2, s1, k),
        i + ws_len(s1, i) < s1.len(),
    ensures
        ws_len(s2, k + i) == ws_len(s1, i),
    decreases s1.len() - i,
{
    assert(s2[(k + i) as int] == s1[i as int]);
    if is_white_space(s1[i as int]) {
        lemma_ws_embed(s2, s1, k, i + 1);
        assert(k + i + 1 == k + (i + 1));
    }
}

/// A whitespace run over exactly `j..e`.
proof fn lemma_ws_run(x: Seq<char>, j: nat, e: nat)
    requires
        j <= e <= x.len(),
        forall|m: int| j <= m < e ==> is_white_space(#[trigger] x[m]),
        e == x.len() || !is_white_space(x[e as int]),
    ensures
        ws_len(x, j) == e - j,
    decreases e - j,
{
    if j < e {
        lemma_ws_run(x, j + 1, e);
    }
}

proof fn lemma_number_run_embed(s2: Seq<char>, s1: Seq<char>, k: nat, i: nat)
    requires
        embeds(s2, s1, k),
        i <= s1.len(),
        i + number_run(s1, i) < s1.len() || tail_ok(s2, s1, k),
    ensures
        number_run(s2, k + i) == number_run(s1, i),
        i + number_run(s1, i) <= s1.len(),
    decreases s1.len() - i,
{
    if i < s1.len() {
        assert(s2[(k + i) as int] == s1[i as int]);
        if is_number_char(s1[i as int]) {
            lemma_number_run_embed(s2, s1, k, i + 1);
            assert(k + i + 1 == k + (i + 1));
        }
    }
}

proof fn lemma_number_embed(s2: Seq<char>, s1: Seq<char>, k: nat, i: nat)
    requires
        embeds(s2, s1, k),
        i <= s1.len(),
        i + number_run(s1, i) < s1.len() || tail_ok(s2, s1, k),
    ensures
        number(s2, k + i) == number(s1, i),
        number(s1, i) matches Ok((v, n)) ==> i + n <= s1.len() && v is Num && n == number_run(s1, i),
{
    lemma_number_run_embed(s2, s1, k, i);
    let n = number_run(s1, i);
    assert(s2.subrange((k + i) as int, (k + i + n) as int) =~= s1.subrange(i as int, (i + n) as int)) by {
        assert forall|x: int| 0 <= x < n implies #[trigger] s2.subrange((k + i) as int, (k + i + n) as int)[x]
            == s1.subrange(i as int, (i + n) as int)[x] by {
            assert(s2[k + (i + x)] == s1[i + x]);
        }
    }
}

proof fn lemma_literal_embed(s2: Seq<char>, s1: Seq<char>, k: nat, i: nat, word: Seq<char>, v: JsonValue)
    requires
        embeds(s2, s1, k),
        literal(s1, i, word, v) is Ok,
    ensures
        literal(s2, k + i, word, v) == literal(s1, i, word, v),
        i + word.len() <= s1.len(),
{
    let n = word.len();
    assert(s2.subrange((k + i) as int, (k + i + n) as int) =~= s1.subrange(i as int, (i + n) as int)) by {
        assert forall|x: int| 0 <= x < n implies #[trigger] s2.subrange((k + i) as int, (k + i + n) as int)[x]
            == s1.subrange(i as int, (i + n) as int)[x] by {
            assert(s2[k + (i + x)] == s1[i + x]);
        }
    }
}

proof fn lemma_hex_run_embed(s2: Seq<char>, s1: Seq<char>, k: nat, i: nat, d: nat, acc: nat)
    requires
        embeds(s2, s1, k),
        d <= 4,
        hex_run(s1, i, d, acc) is Ok,
    ensures
        hex_run(s2, k + i, d, acc) == hex_run(s1, i, d, acc),
    decreases 4 - d,
{
    if d < 4 {
        assert(s2[(k + (i + d)) as int] == s1[(i + d) as int]);
        assert(k + i + d == k + (i + d));
        if let Some(x) = crate::json_spec::hex_value(s1[(i + d) as int]) {
            lemma_hex_run_embed(s2, s1, k, i, d + 1, acc * 16 + x);
        }
    }
}

proof fn lemma_hex4_embed(s2: Seq<char>, s1: Seq<char>, k: nat, i: nat)
    requires
        embeds(s2, s1, k),
        hex4(s1, i) is Ok,
    ensures
        hex4(s2, k + i) == hex4(s1, i),
        i + 4 <= s1.len(),
{
    lemma_hex_run_embed(s2, s1, k, i, 0, 0);
    lemma_hex_run(s1, i, 0, 0);
}

/// A `\u` escape read inside `s1`, followed by more of the string, reads the same in `s2`.
proof fn lemma_unicode_embed(s2: Seq<char>, s1: Seq<char>, k: nat, i: nat)
    requires
        embeds(s2, s1, k),
        unicode_escape(s1, i) matches Ok((c, n)) && i + n < s1.len() && (s1[(i + n) as int] == '\\'
            ==> i + n + 1 < s1.len()),
    ensures
        unicode_escape(s2, k + i) == unicode_escape(s1, i),
{
    lemma_unicode_escape(s1, i);
    lemma_hex4_embed(s2, s1, k, i);
    let j = i + 4;
    assert(k + i + 4 == k + j);
    if j < s1.len() {
        assert(s2[(k + j) as int] == s1[j as int]);
    }
    if j + 1 < s1.len() {
        assert(s2[(k + (j + 1)) as int] == s1[(j + 1) as int]);
        assert(k + j + 1 == k + (j + 1));
        if s1[j as int] == '\\' && s1[(j + 1) as int] == 'u' && hex4(s1, j + 2) is Ok {
            lemma_hex4_embed(s2, s1, k, j + 2);
            assert(k + j + 2 == k + (j + 2));
        }
    }
}

proof fn lemma_string_body_embed(s2: Seq<char>, s1: Seq<char>, k: nat, i: nat, acc: Seq<char>)
    requires
        embeds(s2, s1, k),
        string_body(s1, i, acc) is Ok,
    ensures
        string_body(s2, k + i, acc) == string_body(s1, i, acc),
        string_body(s1, i, acc) matches Ok((t, n)) ==> i + n <= s1.len(),
    decreases s1.len() - i,
{
    assert(i < s1.len());
    assert(s2[(k + i) as int] == s1[i as int]);
    if s1[i as int] == '"' {
    } else if s1[i as int] == '\\' {
        assert(s2[(k + (i + 1)) as int] == s1[(i + 1) as int]);
        assert(k + i + 1 == k + (i + 1));
        assert(k + i + 2 == k + (i + 2));
        let e = s1[(i + 1) as int];
        match simple_escape(e) {
            Some(c) => {
                lemma_string_body_embed(s2, s1, k, i + 2, acc.push(c));
            },
            None => {
                if e == 'u' {
                    lemma_unicode_escape(s1, i + 2);
                    if let Ok((c, n)) = unicode_escape(s1, i + 2) {
                        lemma_string_body_embed(s2, s1, k, i + 2 + n, acc.push(c));
                        let m = i + 2 + n;
                        assert(m < s1.len());
                        if s1[m as int] == '\\' {
                            assert(m + 1 < s1.len());
                        }
                        lemma_unicode_embed(s2, s1, k, i + 2);
                        assert(k + i + 2 + n == k + (i + 2 + n));
                    }
                }
            },
        }
    } else {
        lemma_string_body_embed(s2, s1, k, i + 1, acc.push(s1[i as int]));
        assert(k + i + 1 == k + (i + 1));
    }
}

proof fn lemma_string_at_embed(s2: Seq<char>, s1: Seq<char>, k: nat, i: nat)
    requires
        embeds(s2, s1, k),
        string_at(s1, i) is Ok,
    ensures
        string_at(s2, k + i) == string_at(s1, i),
        string_at(s1, i) matches Ok((t, n)) ==> i < s1.len() && i + n <= s1.len(),
{
    assert(s2[(k + i) as int] == s1[i as int]);
    lemma_string_body_embed(s2, s1, k, i + 1, seq![]);
    assert(k + i + 1 == k + (i + 1));
}

proof fn lemma_number_run_bound(s: Seq<char>, i: nat)
    requires
        i <= s.len(),
    ensures
        i + number_run(s, i) <= s.len(),
    decreases s.len() - i,
{
    if i < s.len() && is_number_char(s[i as int]) {
        lemma_number_run_bound(s, i + 1);
    }
}

/// A value read inside `s1` reads the same in `s2`, unless it is a number that runs to the
/// end of `s1` and `s2` goes on with a character a number could continue with.
proof fn lemma_value_embed(s2: Seq<char>, s1: Seq<char>, k: nat, i: nat)
    requires
        embeds(s2, s1, k),
        value(s1, i) is Ok,
        (value(s1, i) matches Ok((v, n)) && v is Num && i + n == s1.len()) ==> tail_ok(s2, s1, k),
    ensures
        value(s2, k + i) == value(s1, i),
        value(s1, i) matches Ok((v, n)) ==> i < s1.len() && i + n <= s1.len(),
    decreases s1.len() - i, 0int,
{
    assert(i < s1.len());
    assert(s2[(k + i) as int] == s1[i as int]);
    let c = s1[i as int];
    assert(k + i + 1 == k + (i + 1));
    if c == '{' {
        lemma_object_embed(s2, s1, k, i + 1);
    } else if c == '[' {
        lemma_array_embed(s2, s1, k, i + 1);
    } else if c == '"' {
        lemma_string_at_embed(s2, s1, k, i);
    } else if c == 't' {
        lemma_literal_embed(s2, s1, k, i, seq!['t', 'r', 'u', 'e'], JsonValue::Bool(true));
    } else if c == 'f' {
        lemma_literal_embed(s2, s1, k, i, seq!['f', 'a', 'l', 's', 'e'], JsonValue::Bool(false));
    } else if c == 'n' {
        lemma_literal_embed(s2, s1, k, i, seq!['n', 'u', 'l', 'l'], JsonValue::Null);
    } else {
        lemma_number_run_bound(s1, i);
        lemma_number_embed(s2, s1, k, i);
    }
}

proof fn lemma_object_embed(s2: Seq<char>, s1: Seq<char>, k: nat, i: nat)
    requires
        embeds(s2, s1, k),
        object(s1, i) is Ok,
    ensures
        object(s2, k + i) == object(s1, i),
        object(s1, i) matches Ok((v, n)) ==> i + n <= s1.len(),
    decreases s1.len() - i, 2int,
{
    lemma_ws_len(s1, i);
    let j = i + ws_len(s1, i);
    if j < s1.len() && s1[j as int] == '}' {
        lemma_ws_embed(s2, s1, k, i);
        assert(s2[(k + j) as int] == s1[j as int]);
    } else {
        lemma_members_embed(s2, s1, k, j, Map::empty());
        lemma_ws_embed(s2, s1, k, i);
        assert(s2[(k + j) as int] == s1[j as int]);
        assert(k + i + ws_len(s1, i) == k + j);
    }
}

proof fn lemma_members_embed(s2: Seq<char>, s1: Seq<char>, k: nat, i: nat, acc: Map<Seq<char>, JsonValue>)
    requires
        embeds(s2, s1, k),
        members(s1, i, acc) is Ok,
    ensures
        members(s2, k + i, acc) == members(s1, i, acc),
        members(s1, i, acc) matches Ok((v, n)) ==> i < s1.len() && i + n <= s1.len(),
    decreases s1.len() - i, 1int,
{
    lemma_ws_len(s1, i);
    let j = i + ws_len(s1, i);
    lemma_string_at_embed(s2, s1, k, j);
    lemma_ws_embed(s2, s1, k, i);
    assert(k + i + ws_len(s1, i) == k + j);
    let (key, n1) = string_at(s1, j)->Ok_0;
    let p = j + n1;
    lemma_ws_len(s1, p);
    let p1 = p + ws_len(s1, p);
    assert(p1 < s1.len() && s1[p1 as int] == ':');
    lemma_ws_embed(s2, s1, k, p);
    assert(k + j + n1 == k + p);
    assert(s2[(k + p1) as int] == s1[p1 as int]);
    assert(k + p + ws_len(s1, p) == k + p1);
    let p2 = p1 + 1;
    lemma_ws_len(s1, p2);
    let p3 = p2 + ws_len(s1, p2);
    let (v, n2) = value(s1, p3)->Ok_0;
    assert(p3 < s1.len());
    lemma_ws_embed(s2, s1, k, p2);
    assert(k + p1 + 1 == k + p2);
    assert(k + p2 + ws_len(s1, p2) == k + p3);
    let p4 = p3 + n2;
    lemma_ws_len(s1, p4);
    let p5 = p4 + ws_len(s1, p4);
    assert(p5 < s1.len());
    lemma_value_embed(s2, s1, k, p3);
    lemma_ws_embed(s2, s1, k, p4);
    assert(k + p3 + n2 == k + p4);
    assert(k + p4 + ws_len(s1, p4) == k + p5);
    assert(s2[(k + p5) as int] == s1[p5 as int]);
    if s1[p5 as int] == ',' {
        lemma_members_embed(s2, s1, k, p5 + 1, acc.insert(key, v));
        assert(k + p5 + 1 == k + (p5 + 1));
    }
}

proof fn lemma_array_embed(s2: Seq<char>, s1: Seq<char>, k: nat, i: nat)
    requires
        embeds(s2, s1, k),
        array(s1, i) is Ok,
    ensures
        array(s2, k + i) == array(s1, i),
        array(s1, i) matches Ok((v, n)) ==> i + n <= s1.len(),
    decreases s1.len() - i, 2int,
{
    lemma_ws_len(s1, i);
    let j = i + ws_len(s1, i);
    if j < s1.len() && s1[j as int] == ']' {
        lemma_ws_embed(s2, s1, k, i);
        assert(s2[(k + j) as int] == s1[j as int]);
    } else {
        lemma_elements_embed(s2, s1, k, j, seq![]);
        lemma_ws_embed(s2, s1, k, i);
        assert(s2[(k + j) as int] == s1[j as int]);
        assert(k + i + ws_len(s1, i) == k + j);
    }
}

proof fn lemma_elements_embed(s2: Seq<char>, s1: Seq<char>, k: nat, i: nat, acc: Seq<JsonValue>)
    requires
        embeds(s2, s1, k),
        elements(s1, i, acc) is Ok,
    ensures
        elements(s2, k + i, acc) == elements(s1, i, acc),
        elements(s1, i, acc) matches Ok((v, n)) ==> i < s1.len() && i + n <= s1.len(),
    decreases s1.len() - i, 1int,
{
    lemma_ws_len(s1, i);
    let j = i + ws_len(s1, i);
    let (v, n) = value(s1, j)->Ok_0;
    assert(j < s1.len());
    lemma_ws_embed(s2, s1, k, i);
    assert(k + i + ws_len(s1, i) == k + j);
    let p = j + n;
    lemma_ws_len(s1, p);
    let q = p + ws_len(s1, p);
    assert(q < s1.len());
    lemma_value_embed(s2, s1, k, j);
    lemma_ws_embed(s2, s1, k, p);
    assert(k + j + n == k + p);
    assert(k + p + ws_len(s1, p) == k + q);
    assert(s2[(k + q) as int] == s1[q as int]);
    if s1[q as int] == ',' {
        lemma_elements_embed(s2, s1, k, q + 1, acc.push(v));
        assert(k + q + 1 == k + (q + 1));
    }
}

proof fn lemma_members_read_object(s: Seq<char>, i: nat, acc: Map<Seq<char>, JsonValue>)
    ensures
        members(s, i, acc) matches Ok((v, n)) ==> v is Obj,
    decreases s.len() - i,
{
    if members(s, i, acc) is Ok {
        let j = i + ws_len(s, i);
        let (key, n1) = string_at(s, j)->Ok_0;
        let p = j + n1;
        let p1 = p + ws_len(s, p);
        let p2 = p1 + 1;
        let p3 = p2 + ws_len(s, p2);
        let (v, n2) = value(s, p3)->Ok_0;
        let p4 = p3 + n2;
        let p5 = p4 + ws_len(s, p4);
        if p5 < s.len() && s[p5 as int] == ',' {
            lemma_members_read_object(s, p5 + 1, acc.insert(key, v));
        }
    }
}

proof fn lemma_elements_read_array(s: Seq<char>, i: nat, acc: Seq<JsonValue>)
    ensures
        elements(s, i, acc) matches Ok((v, n)) ==> v is Arr,
    decreases s.len() - i,
{
    if elements(s, i, acc) is Ok {
        let j = i + ws_len(s, i);
        let (v, n) = value(s, j)->Ok_0;
        let p = j + n;
        let q = p + ws_len(s, p);
        if q < s.len() && s[q as int] == ',' {
            lemma_elements_read_array(s, q + 1, acc.push(v));
        }
    }
}

/// A value that reads as a number was read by the number rule.
proof fn lemma_number_value(s: Seq<char>, i: nat)
    requires
        value(s, i) matches Ok((v, n)) && v is Num,
    ensures
        value(s, i) == number(s, i),
{
    let c = s[i as int];
    if c == '{' {
        let j = (i + 1) + ws_len(s, i + 1);
        lemma_members_read_object(s, j, Map::empty());
    } else if c == '[' {
        let j = (i + 1) + ws_len(s, i + 1);
        lemma_elements_read_array(s, j, seq![]);
    }
}

/// Whitespace over `x..k` adds its length to the run from `x`.
proof fn lemma_ws_prefix(s: Seq<char>, x: nat, k: nat)
    requires
        x <= k <= s.len(),
        forall|m: int| x <= m < k ==> is_white_space(#[trigger] s[m]),
    ensures
        ws_len(s, x) == (k - x) + ws_len(s, k),
    decreases k - x,
{
    if x < k {
        lemma_ws_prefix(s, x + 1, k);
    }
}

proof fn lemma_number_run_chars(s: Seq<char>, i: nat)
    ensures
        forall|m: int| i <= m < i + number_run(s, i) ==> is_number_char(#[trigger] s[m]),
    decreases s.len() - i,
{
    if i < s.len() && is_number_char(s[i as int]) {
        lemma_number_run_chars(s, i + 1);
    }
}

/// Whitespace before and after a JSON text does not change what it reads as.
pub proof fn law_whitespace_around_is_ignored(s: Seq<char>, w1: Seq<char>, w2: Seq<char>)
    requires
        parse_text(s) is Ok,
        all_white(w1),
        all_white(w2),
    ensures
        parse_text(w1 + s + w2) == parse_text(s),
{
    let k = w1.len();
    let s2 = w1 + s + w2;
    assert forall|x: int| 0 <= x < s.len() implies #[trigger] s2[k + x] == s[x] by {}
    assert(embeds(s2, s, k));
    if w2.len() > 0 {
        assert(s2[(k + s.len()) as int] == w2[0]);
        lemma_white_is_not_number(w2[0]);
    }
    assert(tail_ok(s2, s, k));
    lemma_ws_len(s, 0);
    let i = ws_len(s, 0);
    assert(value(s, i) is Ok);
    assert(i < s.len());
    lemma_ws_embed(s2, s, k, 0);
    assert forall|m: int| 0 <= m < k implies is_white_space(#[trigger] s2[m]) by {
        assert(s2[m] == w1[m]);
    }
    lemma_ws_prefix(s2, 0, k);
    assert(ws_len(s2, 0) == k + i);
    lemma_value_embed(s2, s, k, i);
    let (v, n) = value(s, i)->Ok_0;
    let p = i + n;
    lemma_ws_len(s, p);
    assert(p + ws_len(s, p) == s.len());
    assert forall|m: int| k + p <= m < s2.len() implies is_white_space(#[trigger] s2[m]) by {
        if m < k + s.len() {
            assert(s2[k + (m - k)] == s[m - k]);
        } else {
            assert(s2[m] == w2[m - k - s.len()]);
        }
    }
    lemma_ws_run(s2, k + p, s2.len());
    assert(k + i + n == k + p);
}

/// After a JSON text and any whitespace, a character that is not whitespace is refused
/// as trailing input, at its position. Left out: a text that reads as a number and ends
/// in it, followed at once by a character a number can hold (`1` then `2` reads as `12`).
pub proof fn law_trailing_text_is_rejected(s: Seq<char>, w: Seq<char>, t: Seq<char>)
    requires
        parse_text(s) is Ok,
        all_white(w),
        t.len() > 0,
        !is_white_space(t[0]),
        w.len() > 0 || !is_number_char(t[0]) || !(parse_text(s) matches Ok(JsonValue::Num(_)))
            || is_white_space(s.last()),
    ensures
        parse_text(s + w + t) == Err::<JsonValue, SyntaxError>(SyntaxError::TrailingInput(s.len() + w.len())),
{
    let s2 = s + w + t;
    assert forall|x: int| 0 <= x < s.len() implies #[trigger] s2[0 + x] == s[x] by {}
    assert(embeds(s2, s, 0));
    lemma_ws_len(s, 0);
    let i = ws_len(s, 0);
    assert(value(s, i) is Ok);
    let (v, n) = value(s, i)->Ok_0;
    let p = i + n;
    lemma_ws_len(s, p);
    assert(p + ws_len(s, p) == s.len());
    if v is Num && p == s.len() {
        if w.len() > 0 {
            assert(s2[s.len() as int] == w[0]);
            lemma_white_is_not_number(w[0]);
        } else if !is_number_char(t[0]) {
            assert(s2[s.len() as int] == t[0]);
        } else {
            assert(parse_text(s) == Ok::<JsonValue, SyntaxError>(v));
            lemma_number_value(s, i);
            lemma_number_run_chars(s, i);
            lemma_number_run_bound(s, i);
            assert(n == number_run(s, i));
            assert(n > 0);
            assert(is_number_char(s[s.len() - 1]));
            if is_white_space(s.last()) {
                lemma_white_is_not_number(s.last());
            }
        }
    }
    lemma_value_embed(s2, s, 0, i);
    lemma_ws_embed(s2, s, 0, 0);
    let e = s.len() + w.len();
    assert forall|m: int| p <= m < e implies is_white_space(#[trigger] s2[m]) by {
        if m < s.len() {
            assert(s2[m] == s[m]);
        } else {
            assert(s2[m] == w[m - s.len()]);
        }
    }
    assert(s2[e as int] == t[0]);
    lemma_ws_run(s2, p, e);
}

} // verus!
