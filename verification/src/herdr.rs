//! What Triage reads from herdr's control socket: the request line it sends, the
//! response envelope it accepts, and the agents listed in an `agent.list` result.
//!
//! The protocol is newline-delimited JSON: write `{"id","method","params"}\n`, read one
//! line back. The socket itself is driven by the caller.

use vstd::prelude::*;
use crate::json::{
    Value, field, follow, write_str, quoted, parse, law_get_reads_the_map, wf_value, plain,
    lemma_escape_plain, lemma_string_at_quoted,
};
use crate::json_spec::{JsonValue, parse_text, message, ws_len, value, object, members, string_at, shift};

verus! {

/// The fields Triage reads from an `agent.list` entry.
///
/// Everything except the two ids is optional: herdr reports `agent`, `cwd` and
/// `terminal_title_stripped` as null for a pane it hasn't identified yet, and a pane in
/// that state still belongs in the list.
#[derive(Debug, Clone, PartialEq)]
pub struct Agent {
    pub terminal_id: String,
    pub agent: Option<String>,
    pub task: Option<String>,
    pub status: String,
    pub pane_id: Option<String>,
    pub cwd: Option<String>,
}

/// An agent as plain character sequences.
pub struct AgentView {
    pub terminal_id: Seq<char>,
    pub agent: Option<Seq<char>>,
    pub task: Option<Seq<char>>,
    pub status: Seq<char>,
    pub pane_id: Option<Seq<char>>,
    pub cwd: Option<Seq<char>>,
}

pub open spec fn opt_view(o: Option<String>) -> Option<Seq<char>> {
    match o {
        Some(s) => Some(s@),
        None => None,
    }
}

impl View for Agent {
    type V = AgentView;

    open spec fn view(&self) -> AgentView {
        AgentView {
            terminal_id: self.terminal_id@,
            agent: opt_view(self.agent),
            task: opt_view(self.task),
            status: self.status@,
            pane_id: opt_view(self.pane_id),
            cwd: opt_view(self.cwd),
        }
    }
}

/// Status reported for a pane whose agent state herdr can't determine.
pub open spec fn unknown_status() -> Seq<char> {
    seq!['u', 'n', 'k', 'n', 'o', 'w', 'n']
}

/// A string field of an entry; absent, null and any other shape all read as `None`.
pub open spec fn str_field_of(v: Value, k: Seq<char>) -> Option<Seq<char>> {
    match field(v, k) {
        Some(Value::Str(t)) => Some(t@),
        _ => None,
    }
}

/// The agent an `agent.list` entry describes; an entry without a string `terminal_id` is
/// none, since the id is what an agent is timed by.
pub open spec fn agent_of(v: Value) -> Option<AgentView> {
    match str_field_of(v, "terminal_id"@) {
        None => None,
        Some(id) => Some(
            AgentView {
                terminal_id: id,
                agent: str_field_of(v, "agent"@),
                task: str_field_of(v, "terminal_title_stripped"@),
                status: match str_field_of(v, "agent_status"@) {
                    Some(s) => s,
                    None => unknown_status(),
                },
                pane_id: str_field_of(v, "pane_id"@),
                cwd: str_field_of(v, "cwd"@),
            },
        ),
    }
}

/// The agents of a list of entries, in order, skipping entries that describe none.
pub open spec fn agents_of(items: Seq<Value>) -> Seq<AgentView>
    decreases items.len(),
{
    if items.len() == 0 {
        Seq::empty()
    } else {
        let rest = agents_of(items.drop_last());
        match agent_of(items.last()) {
            Some(a) => rest.push(a),
            None => rest,
        }
    }
}

/// The agents listed in a response envelope under `result.agents`; none when that is
/// absent or not an array.
pub open spec fn listed_agents(msg: Value) -> Seq<AgentView> {
    match follow(msg, seq!["result"@, "agents"@]) {
        Some(Value::Arr(items)) => agents_of(items@),
        _ => Seq::empty(),
    }
}

fn copy_string(s: &str) -> (r: String)
    ensures
        r@ == s@,
{
    String::from_str(s)
}

fn copy_opt(o: Option<&str>) -> (r: Option<String>)
    ensures
        opt_view(r) == (match o {
            Some(s) => Some(s@),
            None => None::<Seq<char>>,
        }),
{
    match o {
        Some(s) => Some(String::from_str(s)),
        None => None,
    }
}

fn read_agent(a: &Value) -> (r: Option<Agent>)
    ensures
        match agent_of(*a) {
            Some(v) => r matches Some(x) && x@ == v,
            None => r is None,
        },
{
    let id = match a.str_field("terminal_id") {
        Some(id) => id,
        None => {
            return None;
        },
    };
    let status = match a.str_field("agent_status") {
        Some(s) => copy_string(s),
        None => {
            let u = String::from_str("unknown");
            proof {
                reveal_strlit("unknown");
                assert(u@ =~= unknown_status());
            }
            u
        },
    };
    Some(
        Agent {
            terminal_id: copy_string(id),
            agent: copy_opt(a.str_field("agent")),
            task: copy_opt(a.str_field("terminal_title_stripped")),
            status,
            pane_id: copy_opt(a.str_field("pane_id")),
            cwd: copy_opt(a.str_field("cwd")),
        },
    )
}

/// Pull the agent list out of an `agent.list` response envelope.
///
/// An entry with no `terminal_id` is skipped rather than given a placeholder: the id is
/// what the tracker times an agent by, so two id-less entries would share one timer.
pub fn parse_agents(msg: &Value) -> (r: Vec<Agent>)
    ensures
        r@.map_values(|a: Agent| a@) == listed_agents(*msg),
{
    let keys: [&str; 2] = ["result", "agents"];
    proof {
        assert(keys@.map_values(|k: &str| k@) =~= seq!["result"@, "agents"@]);
    }
    let items = match msg.path(&keys) {
        Some(v) => match v.as_array() {
            Some(items) => items,
            None => {
                proof {
                    assert(Seq::<Agent>::empty().map_values(|a: Agent| a@) =~= listed_agents(*msg));
                }
                return Vec::new();
            },
        },
        None => {
            proof {
                assert(Seq::<Agent>::empty().map_values(|a: Agent| a@) =~= listed_agents(*msg));
            }
            return Vec::new();
        },
    };
    let mut out: Vec<Agent> = Vec::new();
    for i in 0..items.len()
        invariant
            listed_agents(*msg) == agents_of(items@),
            out@.map_values(|a: Agent| a@) == agents_of(items@.take(i as int)),
    {
        assert(items@.take(i + 1).drop_last() =~= items@.take(i as int));
        assert(items@.take(i + 1).last() == items@[i as int]);
        match read_agent(&items[i]) {
            Some(a) => {
                out.push(a);
                assert(out@.map_values(|a: Agent| a@) =~= agents_of(items@.take(i as int)).push(
                    a@,
                ));
            },
            None => {},
        }
    }
    assert(items@.take(items.len() as int) =~= items@);
    out
}

/// The request line for a method: `{"id":"1","method":<method>,"params":{}}` and a newline.
pub open spec fn request_text(method: Seq<char>) -> Seq<char> {
    "{\"id\":"@ + quoted(seq!['1']) + ",\"method\":"@ + quoted(method) + ",\"params\":{}}\n"@
}

/// The request line sent for `method`. `params` is always empty for the two methods
/// Triage calls, so it isn't a parameter.
pub fn request_line(method: &str) -> (r: String)
    ensures
        r@ == request_text(method@),
{
    let mut req = String::from_str("{\"id\":");
    write_str(&mut req, "1");
    proof {
        reveal_strlit("1");
        assert("1"@ =~= seq!['1']);
    }
    req.append(",\"method\":");
    write_str(&mut req, method);
    req.append(",\"params\":{}}\n");
    proof {
        assert(req@ =~= request_text(method@));
    }
    req
}

proof fn lemma_params_member(s: Seq<char>, i: nat, acc: Map<Seq<char>, JsonValue>)
    requires
        i + 12 < s.len(),
        string_at(s, i) == Ok::<(Seq<char>, nat), crate::json_spec::SyntaxError>((seq!['p', 'a', 'r', 'a', 'm', 's'], 8)),
        s[(i as int) as int] == '"',
        s[(i + 8) as int] == ':',
        s[(i + 9) as int] == '{',
        s[(i + 10) as int] == '}',
        s[(i + 11) as int] == '}',
    ensures
        members(s, i, acc) == Ok::<(JsonValue, nat), crate::json_spec::SyntaxError>((
            JsonValue::Obj(acc.insert(seq!['p', 'a', 'r', 'a', 'm', 's'], JsonValue::Obj(Map::empty()))),
            12,
        )),
{
    assert(ws_len(s, i) == 0);
    assert(ws_len(s, i + 8) == 0);
    assert(ws_len(s, i + 9) == 0);
    assert(ws_len(s, i + 10) == 0);
    assert(ws_len(s, i + 11) == 0);
    assert(object(s, i + 10) == Ok::<(JsonValue, nat), crate::json_spec::SyntaxError>((JsonValue::Obj(Map::empty()), 1)));
    assert(value(s, i + 9) == Ok::<(JsonValue, nat), crate::json_spec::SyntaxError>((JsonValue::Obj(Map::empty()), 2)));
}

proof fn lemma_string_member(
    s: Seq<char>,
    i: nat,
    acc: Map<Seq<char>, JsonValue>,
    k: Seq<char>,
    kn: nat,
    v: Seq<char>,
    vn: nat,
)
    requires
        i + kn + 1 + vn < s.len(),
        kn >= 1,
        vn >= 1,
        string_at(s, i) == Ok::<(Seq<char>, nat), crate::json_spec::SyntaxError>((k, kn)),
        string_at(s, i + kn + 1) == Ok::<(Seq<char>, nat), crate::json_spec::SyntaxError>((v, vn)),
        s[(i as int) as int] == '"',
        s[(i + kn) as int] == ':',
        s[(i + kn + 1) as int] == '"',
        s[(i + kn + 1 + vn) as int] == ',',
    ensures
        members(s, i, acc) == shift((kn + 2 + vn) as nat, members(s, i + kn + 2 + vn, acc.insert(k, JsonValue::Str(v)))),
{
    assert(ws_len(s, i) == 0);
    assert(ws_len(s, i + kn) == 0);
    assert(ws_len(s, i + kn + 1) == 0);
    assert(ws_len(s, i + kn + 1 + vn) == 0);
    assert(value(s, i + kn + 1) == Ok::<(JsonValue, nat), crate::json_spec::SyntaxError>((JsonValue::Str(v), vn)));
}

proof fn lemma_request_pieces(method: Seq<char>)
    ensures
        ({
            let s = request_text(method);
            let e = 19 + quoted(method).len() as int;
            &&& s.len() == e + 14
            &&& s.subrange(1, 5) == quoted(seq!['i', 'd'])
            &&& s.subrange(6, 9) == quoted(seq!['1'])
            &&& s.subrange(10, 18) == quoted(seq!['m', 'e', 't', 'h', 'o', 'd'])
            &&& s.subrange(19, e) == quoted(method)
            &&& s.subrange(e + 1, e + 9) == quoted(seq!['p', 'a', 'r', 'a', 'm', 's'])
            &&& s[0] == '{' && s[5] == ':' && s[9] == ',' && s[18] == ':' && s[(e) as int] == ','
            &&& s[(e + 9) as int] == ':' && s[(e + 10) as int] == '{' && s[(e + 11) as int] == '}' && s[(e + 12) as int] == '}'
            &&& s[(e + 13) as int] == '\n'
            &&& s[1] == '"' && s[6] == '"' && s[10] == '"' && s[19] == '"' && s[(e + 1) as int] == '"'
        }),
{
    reveal_strlit("{\"id\":");
    reveal_strlit(",\"method\":");
    reveal_strlit(",\"params\":{}}\n");
    let id = seq!['i', 'd'];
    let one = seq!['1'];
    let mk = seq!['m', 'e', 't', 'h', 'o', 'd'];
    let pk = seq!['p', 'a', 'r', 'a', 'm', 's'];
    lemma_escape_plain(id);
    lemma_escape_plain(one);
    lemma_escape_plain(mk);
    lemma_escape_plain(pk);
    let l1 = "{\"id\":"@;
    let l2 = ",\"method\":"@;
    let l3 = ",\"params\":{}}\n"@;
    assert(l1 =~= seq!['{'] + quoted(id) + seq![':']);
    assert(l2 =~= seq![','] + quoted(mk) + seq![':']);
    assert(l3 =~= seq![','] + quoted(pk) + seq![':', '{', '}', '}', '\n']);
    assert(quoted(one) =~= seq!['"', '1', '"']);
    let qm = quoted(method);
    let s = request_text(method);
    let e = 19 + qm.len() as int;
    assert(s =~= l1 + quoted(one) + l2 + qm + l3);
    assert(s.subrange(1, 5) =~= quoted(id));
    assert(s.subrange(6, 9) =~= quoted(one));
    assert(s.subrange(10, 18) =~= quoted(mk));
    assert(s.subrange(19, e) =~= qm);
    assert(s.subrange(e + 1, e + 9) =~= quoted(pk));
}

/// The request line is a JSON object naming the method, whatever the method's name: it
/// reads back as `{"id": "1", "method": <method>, "params": {}}`.
#[verifier::spinoff_prover]
#[verifier::rlimit(60)]
pub proof fn law_request_line_reads_back(method: Seq<char>)
    ensures
        parse_text(request_text(method)) == Ok::<JsonValue, crate::json_spec::SyntaxError>(
            JsonValue::Obj(
                Map::<Seq<char>, JsonValue>::empty().insert("id"@, JsonValue::Str("1"@)).insert(
                    "method"@,
                    JsonValue::Str(method),
                ).insert("params"@, JsonValue::Obj(Map::empty())),
            ),
        ),
{
    reveal_strlit("id");
    reveal_strlit("1");
    reveal_strlit("method");
    reveal_strlit("params");
    let id = seq!['i', 'd'];
    let one = seq!['1'];
    let mk = seq!['m', 'e', 't', 'h', 'o', 'd'];
    let pk = seq!['p', 'a', 'r', 'a', 'm', 's'];
    assert("id"@ =~= id);
    assert("1"@ =~= one);
    assert("method"@ =~= mk);
    assert("params"@ =~= pk);
    lemma_request_pieces(method);
    let s = request_text(method);
    let lm = quoted(method).len();
    let e = 19 + lm as int;
    lemma_string_at_quoted(s, 1, id);
    lemma_string_at_quoted(s, 6, one);
    lemma_string_at_quoted(s, 10, mk);
    lemma_string_at_quoted(s, 19, method);
    lemma_string_at_quoted(s, e + 1, pk);
    let m0 = Map::<Seq<char>, JsonValue>::empty();
    let m1 = m0.insert(id, JsonValue::Str(one));
    let m2 = m1.insert(mk, JsonValue::Str(method));
    let m3 = m2.insert(pk, JsonValue::Obj(m0));
    lemma_params_member(s, (e + 1) as nat, m2);
    lemma_string_member(s, 10, m1, mk, 8, method, lm);
    lemma_string_member(s, 1, m0, id, 4, one, 3);
    assert(ws_len(s, 0) == 0);
    assert(ws_len(s, 1) == 0);
    assert(ws_len(s, (e + 14) as nat) == 0);
    assert(ws_len(s, (e + 13) as nat) == 1);
    assert(value(s, 0) == Ok::<(JsonValue, nat), crate::json_spec::SyntaxError>((JsonValue::Obj(m3), (e + 13) as nat)));
}

/// A string member of a JSON value that is an object.
pub open spec fn json_str_field(v: JsonValue, k: Seq<char>) -> Option<Seq<char>> {
    match v {
        JsonValue::Obj(m) => if m.dom().contains(k) {
            match m[k] {
                JsonValue::Str(t) => Some(t),
                _ => None,
            }
        } else {
            None
        },
        _ => None,
    }
}

pub open spec fn json_has(v: JsonValue, k: Seq<char>) -> bool {
    v matches JsonValue::Obj(m) && m.dom().contains(k)
}

pub open spec fn or_else(o: Option<Seq<char>>, d: Seq<char>) -> Seq<char> {
    match o {
        Some(t) => t,
        None => d,
    }
}

/// How a response carrying an `error` member is reported.
pub open spec fn error_report(method: Seq<char>, err: JsonValue) -> Seq<char> {
    "herdr "@ + method + ": "@ + or_else(json_str_field(err, "code"@), "?"@) + " "@ + or_else(
        json_str_field(err, "message"@),
        "(no message)"@,
    )
}

/// What a response line amounts to: its envelope when it parses and carries a `result`;
/// otherwise the error to report. An `error` member wins over a `result`.
pub open spec fn response_outcome(method: Seq<char>, line: Seq<char>) -> Result<JsonValue, Seq<char>> {
    match parse_text(line) {
        Err(e) => Err(message(e)),
        Ok(v) => if json_has(v, "error"@) {
            Err(error_report(method, v->Obj_0["error"@]))
        } else if json_has(v, "result"@) {
            Ok(v)
        } else {
            Err("herdr "@ + method + ": response had no result"@)
        },
    }
}

fn str_or<'a>(o: Option<&'a str>, d: &'a str) -> (r: &'a str)
    ensures
        r@ == (match o {
            Some(s) => s@,
            None => d@,
        }),
{
    match o {
        Some(s) => s,
        None => d,
    }
}

fn read_str_field<'a>(v: &'a Value, k: &str) -> (r: Option<&'a str>)
    requires
        wf_value(*v),
    ensures
        (match r {
            Some(s) => Some(s@),
            None => None::<Seq<char>>,
        }) == json_str_field(v@, k@),
{
    proof {
        if v is Obj {
            law_get_reads_the_map(*v, k@);
        }
    }
    v.str_field(k)
}

/// Checks one response line for `method`: the parsed envelope, or the error to report.
pub fn read_response(method: &str, line: &str) -> (r: Result<Value, String>)
    ensures
        match response_outcome(method@, line@) {
            Ok(v) => r matches Ok(x) && x@ == v && wf_value(x),
            Err(m) => r matches Err(e) && e@ == m,
        },
{
    let msg = parse(line)?;
    proof {
        if msg is Obj {
            law_get_reads_the_map(msg, "error"@);
            law_get_reads_the_map(msg, "result"@);
        }
    }
    match msg.get("error") {
        Some(err) => {
            proof {
                crate::json::lemma_field_wf(msg, "error"@);
            }
            let code = str_or(read_str_field(err, "code"), "?");
            let text = str_or(read_str_field(err, "message"), "(no message)");
            let mut out = String::from_str("herdr ");
            out.append(method);
            out.append(": ");
            out.append(code);
            out.append(" ");
            out.append(text);
            proof {
                assert(out@ =~= error_report(method@, msg@->Obj_0["error"@]));
            }
            return Err(out);
        },
        None => {},
    }
    if msg.get("result").is_none() {
        let mut out = String::from_str("herdr ");
        out.append(method);
        out.append(": response had no result");
        proof {
            assert(out@ =~= "herdr "@ + method@ + ": response had no result"@);
        }
        return Err(out);
    }
    Ok(msg)
}

/// The position of the first newline byte.
pub open spec fn first_newline(c: Seq<u8>) -> Option<nat>
    decreases c.len(),
{
    if c.len() == 0 {
        None
    } else if c[0] == 10u8 {
        Some(0)
    } else {
        match first_newline(c.drop_first()) {
            Some(n) => Some(n + 1),
            None => None,
        }
    }
}

/// One chunk taken into the line so far: the line, and whether it is complete.
pub open spec fn absorb(line: Seq<u8>, chunk: Seq<u8>) -> (Seq<u8>, bool) {
    match first_newline(chunk) {
        Some(n) => (line + chunk.take(n as int), true),
        None => (line + chunk, false),
    }
}

/// Chunks taken in order until the line is complete; chunks after that are not read.
pub open spec fn absorb_all(chunks: Seq<Seq<u8>>) -> (Seq<u8>, bool)
    decreases chunks.len(),
{
    if chunks.len() == 0 {
        (Seq::empty(), false)
    } else {
        let (line, done) = absorb_all(chunks.drop_last());
        if done {
            (line, true)
        } else {
            absorb(line, chunks.last())
        }
    }
}

/// The bytes of the chunks one after another.
pub open spec fn joined(chunks: Seq<Seq<u8>>) -> Seq<u8>
    decreases chunks.len(),
{
    if chunks.len() == 0 {
        Seq::empty()
    } else {
        joined(chunks.drop_last()) + chunks.last()
    }
}

/// The line a byte stream starts with: its bytes before the first newline (and `true`), or
/// all of them when it has none (and `false`).
pub open spec fn line_of(b: Seq<u8>) -> (Seq<u8>, bool) {
    absorb(Seq::empty(), b)
}

pub proof fn lemma_first_newline(c: Seq<u8>)
    ensures
        first_newline(c) matches Some(n) ==> n < c.len() && c[n as int] == 10u8 && forall|j: int|
            0 <= j < n ==> c[j] != 10u8,
        first_newline(c) is None ==> forall|j: int| 0 <= j < c.len() ==> c[j] != 10u8,
    decreases c.len(),
{
    if c.len() > 0 && c[0] != 10u8 {
        lemma_first_newline(c.drop_first());
        assert forall|j: int| 0 < j < c.len() implies c[j] == c.drop_first()[j - 1] by {}
    }
}

proof fn lemma_first_newline_concat(a: Seq<u8>, b: Seq<u8>)
    ensures
        first_newline(a + b) == (match first_newline(a) {
            Some(n) => Some(n),
            None => match first_newline(b) {
                Some(m) => Some(m + a.len()),
                None => None::<nat>,
            },
        }),
    decreases a.len(),
{
    if a.len() == 0 {
        assert(a + b =~= b);
    } else {
        assert((a + b)[0] == a[0]);
        assert((a + b).drop_first() =~= a.drop_first() + b);
        lemma_first_newline_concat(a.drop_first(), b);
    }
}

/// The line read does not depend on how its bytes arrive: taking chunks into the line
/// until it is complete gives the line the joined bytes start with, for every split of the
/// bytes into reads.
pub proof fn law_line_is_independent_of_reads(chunks: Seq<Seq<u8>>)
    ensures
        absorb_all(chunks) == line_of(joined(chunks)),
    decreases chunks.len(),
{
    if chunks.len() > 0 {
        let rest = chunks.drop_last();
        let c = chunks.last();
        let p = joined(rest);
        law_line_is_independent_of_reads(rest);
        lemma_first_newline_concat(p, c);
        match first_newline(p) {
            Some(n) => {
                lemma_first_newline(p);
                assert((p + c).take(n as int) =~= p.take(n as int));
                assert(Seq::<u8>::empty() + (p + c).take(n as int) =~= Seq::<u8>::empty() + p.take(n as int));
            },
            None => {
                assert(Seq::<u8>::empty() + p =~= p);
                match first_newline(c) {
                    Some(m) => {
                        lemma_first_newline(c);
                        assert(Seq::<u8>::empty() + (p + c).take((m + p.len()) as int) =~= p + c.take(m as int));
                    },
                    None => {
                        assert(Seq::<u8>::empty() + (p + c) =~= p + c);
                    },
                }
            },
        }
    }
}

/// Takes one chunk read from the socket into the line buffer: the bytes before the first
/// newline, or the whole chunk when it has none. Returns whether the line is complete.
pub fn absorb_chunk(buf: &mut Vec<u8>, chunk: &[u8]) -> (done: bool)
    ensures
        (final(buf)@, done) == absorb(old(buf)@, chunk@),
{
    let ghost start = buf@;
    proof {
        lemma_first_newline(chunk@);
    }
    for i in 0..chunk.len()
        invariant
            start == old(buf)@,
            buf@ == start + chunk@.take(i as int),
            forall|j: int| 0 <= j < i ==> chunk@[j] != 10u8,
            first_newline(chunk@) matches Some(n) ==> n < chunk@.len() && chunk@[n as int] == 10u8
                && forall|j: int| 0 <= j < n ==> chunk@[j] != 10u8,
            first_newline(chunk@) is None ==> forall|j: int| 0 <= j < chunk@.len() ==> chunk@[j] != 10u8,
    {
        if chunk[i] == 10u8 {
            assert(first_newline(chunk@) == Some(i as nat));
            return true;
        }
        buf.push(chunk[i]);
        assert(chunk@.take(i + 1) =~= chunk@.take(i as int).push(chunk@[i as int]));
    }
    assert(chunk@.take(chunk.len() as int) =~= chunk@);
    assert(first_newline(chunk@) is None);
    false
}


/// What `String::from_utf8_lossy` makes of some bytes.
pub uninterp spec fn lossy_text(bytes: Seq<u8>) -> Seq<char>;

/// `String::from_utf8_lossy`, made owned: the bytes read as UTF-8, each invalid sequence
/// replaced by U+FFFD. The result is named; of it is stated only what the documentation
/// gives plainly, that ASCII bytes (valid UTF-8, one byte per character) read as themselves.
#[verifier::external_body]
fn decode_lossy(bytes: &[u8]) -> (r: String)
    ensures
        r@ == lossy_text(bytes@),
        (forall|i: int| 0 <= i < bytes@.len() ==> bytes@[i] < 0x80u8) ==> r@ == Seq::new(
            bytes@.len(),
            |i: int| bytes@[i] as char,
        ),
{
    String::from_utf8_lossy(bytes).into_owned()
}

/// A complete line as text: its bytes decoded as UTF-8, with U+FFFD for each invalid
/// sequence. An ASCII line reads as its bytes.
pub fn line_text(line: &[u8]) -> (r: String)
    ensures
        r@ == lossy_text(line@),
        (forall|i: int| 0 <= i < line@.len() ==> line@[i] < 0x80u8) ==> r@ == Seq::new(
            line@.len(),
            |i: int| line@[i] as char,
        ),
{
    decode_lossy(line)
}


/// The line a response is read into, chunk by chunk as the socket gives them.
pub struct LineReader {
    buf: Vec<u8>,
    done: bool,
    fed: Ghost<Seq<Seq<u8>>>,
}

impl LineReader {
    /// The chunks fed so far, in order.
    pub closed spec fn fed(&self) -> Seq<Seq<u8>> {
        self.fed@
    }

    /// The line holds what its chunks make of it.
    pub closed spec fn wf(&self) -> bool {
        (self.buf@, self.done) == absorb_all(self.fed@)
    }

    /// A reader that has been fed nothing.
    pub fn new() -> (r: Self)
        ensures
            r.wf(),
            r.fed() == Seq::<Seq<u8>>::empty(),
    {
        LineReader { buf: Vec::new(), done: false, fed: Ghost(Seq::empty()) }
    }

    /// Takes in the next chunk read; returns whether the line is now complete. A chunk
    /// fed after the line is complete is not looked at.
    pub fn feed(&mut self, chunk: &[u8]) -> (done: bool)
        requires
            old(self).wf(),
        ensures
            final(self).wf(),
            final(self).fed() == old(self).fed().push(chunk@),
            done == absorb_all(final(self).fed()).1,
    {
        let ghost fed = self.fed@.push(chunk@);
        proof {
            assert(fed.drop_last() =~= self.fed@);
        }
        if !self.done {
            self.done = absorb_chunk(&mut self.buf, chunk);
        }
        self.fed = Ghost(fed);
        self.done
    }

    /// The line as text: the bytes fed before the first newline (all of them when none
    /// came), decoded as UTF-8 with U+FFFD for each invalid sequence. It is the same
    /// however the bytes were split into chunks.
    pub fn finish(self) -> (r: String)
        requires
            self.wf(),
        ensures
            r@ == lossy_text(line_of(joined(self.fed())).0),
    {
        proof {
            law_line_is_independent_of_reads(self.fed@);
        }
        line_text(self.buf.as_slice())
    }
}

} // verus!
