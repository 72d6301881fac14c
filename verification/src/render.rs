//! Rendering the ranked list. Pure string work, no I/O.

use vstd::prelude::*;
use crate::text::{decimal, push_decimal, chars_of, push_chars, white_space, is_white_space};
use crate::json_spec::ws_len;
use crate::priority::{RankItem, RankItemView};

verus! {

/// Width of the label column, in characters.
pub const LABEL_WIDTH: usize = 32;

/// The mark shown for a status.
pub open spec fn glyph_text(status: Seq<char>) -> Seq<char> {
    if status == "blocked"@ {
        "🔴"@
    } else if status == "done"@ {
        "✅"@
    } else if status == "working"@ {
        "⚙️"@
    } else if status == "idle"@ {
        "💤"@
    } else {
        "·"@
    }
}

/// Human-friendly duration: "42s", "5m", "1h3m".
pub open spec fn duration_text(ms: u64) -> Seq<char> {
    let s = ms / 1000;
    if s < 60 {
        decimal(s as nat) + "s"@
    } else {
        let m = s / 60;
        if m < 60 {
            decimal(m as nat) + "m"@
        } else {
            decimal((m / 60) as nat) + "h"@ + decimal((m % 60) as nat) + "m"@
        }
    }
}

/// At most `n` characters, an ellipsis standing in for the last one when cut.
pub open spec fn trunc_text(t: Seq<char>, n: nat) -> Seq<char> {
    if t.len() <= n {
        t
    } else {
        t.take(if n >= 1 { n - 1 } else { 0 }).push('…')
    }
}

/// A text that fits its width is left alone; a longer one is cut to the width (of at least
/// one character) and ends in an ellipsis after a prefix of the text.
pub proof fn law_trunc_fits(t: Seq<char>, n: nat)
    ensures
        t.len() <= n ==> trunc_text(t, n) == t,
        t.len() > n && n >= 1 ==> trunc_text(t, n).len() == n,
        t.len() > n ==> trunc_text(t, n).last() == '…' && trunc_text(t, n).drop_last()
            =~= t.take(trunc_text(t, n).len() - 1),
{
}

/// The number of whitespace characters just before position `e`.
pub open spec fn trailing_ws(t: Seq<char>, e: nat) -> nat
    decreases e,
{
    if 0 < e <= t.len() && is_white_space(t[e - 1]) {
        1 + trailing_ws(t, (e - 1) as nat)
    } else {
        0
    }
}

/// `t` without leading and trailing whitespace, as `str::trim` gives it.
pub open spec fn trimmed(t: Seq<char>) -> Seq<char> {
    let a = ws_len(t, 0);
    let b = t.len() - trailing_ws(t, t.len());
    if a >= b {
        Seq::empty()
    } else {
        t.subrange(a as int, b)
    }
}

/// Where the agent sits: its pane, else its terminal.
pub open spec fn pane_text(item: RankItemView) -> Seq<char> {
    match item.pane_id {
        Some(p) => p,
        None => item.terminal_id,
    }
}

/// What to call an agent in the list: its task if herdr knows one, else the pane it's in.
pub open spec fn label_text(item: RankItemView) -> Seq<char> {
    let task = match item.task {
        Some(t) => trimmed(t),
        None => Seq::empty(),
    };
    if task.len() > 0 {
        trunc_text(task, 32)
    } else {
        trunc_text(pane_text(item), 32)
    }
}

/// A text of whitespace only trims to nothing.
proof fn lemma_blank_trims_to_nothing(t: Seq<char>, i: nat)
    requires
        i <= t.len(),
        forall|k: int| 0 <= k < t.len() ==> is_white_space(#[trigger] t[k]),
    ensures
        ws_len(t, i) == t.len() - i,
        i == 0 ==> trimmed(t) == Seq::<char>::empty(),
    decreases t.len() - i,
{
    if i < t.len() {
        lemma_blank_trims_to_nothing(t, i + 1);
    }
}

/// An agent with no task, or a task of whitespace only, is labelled by the pane it is in,
/// or by its terminal when it has no pane, cut to the label width. An agent with a task is
/// labelled by the task without its surrounding whitespace, cut to the label width.
pub proof fn law_label_is_task_else_pane(item: RankItemView)
    ensures
        (item.task is None || forall|k: int| 0 <= k < item.task->0.len() ==> is_white_space(
            #[trigger] item.task->0[k],
        )) ==> label_text(item) == trunc_text(
            match item.pane_id {
                Some(p) => p,
                None => item.terminal_id,
            },
            32,
        ),
        item.task is Some && trimmed(item.task->0).len() > 0 ==> label_text(item) == trunc_text(
            trimmed(item.task->0),
            32,
        ),
{
    if let Some(t) = item.task {
        if forall|k: int| 0 <= k < t.len() ==> is_white_space(#[trigger] t[k]) {
            lemma_blank_trims_to_nothing(t, 0);
        }
    }
}

/// The wait shown is the time elapsed in its largest whole unit: whole seconds under a
/// minute, whole minutes under an hour, and beyond that whole hours and the whole minutes
/// past the hour.
pub proof fn law_duration_counts_whole_units(ms: u64)
    ensures
        ms < 60_000 ==> duration_text(ms) == decimal((ms / 1000) as nat) + "s"@,
        60_000 <= ms < 3_600_000 ==> duration_text(ms) == decimal((ms / 60_000) as nat) + "m"@,
        3_600_000 <= ms ==> duration_text(ms) == decimal((ms / 3_600_000) as nat) + "h"@ + decimal(
            ((ms / 60_000) % 60) as nat,
        ) + "m"@,
{
    let s = ms / 1000;
    let m = s / 60;
    assert(m == ms / 60_000) by {
        vstd::arithmetic::div_mod::lemma_div_denominator(ms as int, 1000, 60);
    }
    assert(m / 60 == ms / 3_600_000) by {
        vstd::arithmetic::div_mod::lemma_div_denominator(ms as int, 60_000, 60);
    }
    assert(s < 60 <==> ms < 60_000) by {
        if ms < 60_000 {
            vstd::arithmetic::div_mod::lemma_div_is_ordered(ms as int, 59_999, 1000);
        } else {
            vstd::arithmetic::div_mod::lemma_div_is_ordered(60_000, ms as int, 1000);
        }
    }
    assert(m < 60 <==> ms < 3_600_000) by {
        if ms < 3_600_000 {
            vstd::arithmetic::div_mod::lemma_div_is_ordered(ms as int, 3_599_999, 60_000);
        } else {
            vstd::arithmetic::div_mod::lemma_div_is_ordered(3_600_000, ms as int, 60_000);
        }
    }
}

/// A wait time is only meaningful for blocked agents; the others show a dash.
pub open spec fn wait_text(item: RankItemView) -> Seq<char> {
    if item.status == "blocked"@ {
        duration_text(item.in_status_ms)
    } else {
        "—"@
    }
}

pub open spec fn spaces(n: nat) -> Seq<char> {
    Seq::new(n, |i: int| ' ')
}

/// Right-aligned in a column of `w` characters.
pub open spec fn pad_left(t: Seq<char>, w: nat) -> Seq<char> {
    if t.len() < w {
        spaces((w - t.len()) as nat) + t
    } else {
        t
    }
}

/// Left-aligned in a column of `w` characters.
pub open spec fn pad_right(t: Seq<char>, w: nat) -> Seq<char> {
    if t.len() < w {
        t + spaces((w - t.len()) as nat)
    } else {
        t
    }
}

/// One row: glyph, wait (5 wide, right-aligned), label (32 wide), pane.
pub open spec fn row_text(item: RankItemView) -> Seq<char> {
    glyph_text(item.status) + " "@ + pad_left(wait_text(item), 5) + "  "@ + pad_right(
        label_text(item),
        32,
    ) + "  "@ + pane_text(item)
}

pub open spec fn rows_text(items: Seq<RankItemView>) -> Seq<char>
    decreases items.len(),
{
    if items.len() == 0 {
        Seq::empty()
    } else {
        rows_text(items.drop_last()) + "\n"@ + row_text(items.last())
    }
}

/// The whole list: a header with the count and one line per agent, or a note that there
/// are none.
pub open spec fn triage_text(items: Seq<RankItemView>) -> Seq<char> {
    if items.len() == 0 {
        "No agents."@
    } else {
        "Attention triage — "@ + decimal(items.len()) + " agent(s)"@ + rows_text(items)
    }
}

fn text_is(s: &str, lit: &str) -> (r: bool)
    ensures
        r == (s@ == lit@),
{
    let a = String::from_str(s);
    let b = String::from_str(lit);
    a == b
}

pub fn glyph(status: &str) -> (r: &'static str)
    ensures
        r@ == glyph_text(status@),
{
    if text_is(status, "blocked") {
        "🔴"
    } else if text_is(status, "done") {
        "✅"
    } else if text_is(status, "working") {
        "⚙️"
    } else if text_is(status, "idle") {
        "💤"
    } else {
        "·"
    }
}

/// Human-friendly duration: "42s", "5m", "1h3m".
pub fn format_duration(ms: u64) -> (r: String)
    ensures
        r@ == duration_text(ms),
{
    let s = ms / 1000;
    let mut out = String::new();
    if s < 60 {
        push_decimal(&mut out, s);
        out.append("s");
        return out;
    }
    let m = s / 60;
    if m < 60 {
        push_decimal(&mut out, m);
        out.append("m");
        return out;
    }
    push_decimal(&mut out, m / 60);
    out.append("h");
    push_decimal(&mut out, m % 60);
    out.append("m");
    out
}

fn trunc_chars(cs: &[char], n: usize) -> (r: String)
    ensures
        r@ == trunc_text(cs@, n as nat),
{
    let mut out = String::new();
    if cs.len() <= n {
        push_chars(&mut out, cs);
        return out;
    }
    let keep = if n >= 1 {
        n - 1
    } else {
        0
    };
    let ghost start = out@;
    for i in 0..keep
        invariant
            keep < cs.len(),
            out@ == cs@.take(i as int),
    {
        out.push(cs[i]);
        assert(cs@.take(i + 1) =~= cs@.take(i as int).push(cs@[i as int]));
    }
    out.push('…');
    out
}

/// Truncate to `n` characters, with an ellipsis standing in for the last one.
///
/// Counts characters, not bytes: agent titles carry non-ASCII often enough that slicing
/// by byte would panic on a multi-byte boundary.
pub fn trunc(s: &str, n: usize) -> (r: String)
    ensures
        r@ == trunc_text(s@, n as nat),
{
    let cs = chars_of(s);
    trunc_chars(cs.as_slice(), n)
}

fn trim_chars(cs: &[char]) -> (r: Vec<char>)
    ensures
        r@ == trimmed(cs@),
{
    let ghost t = cs@;
    let mut a: usize = 0;
    while a < cs.len() && white_space(cs[a])
        invariant
            t == cs@,
            a <= cs.len(),
            ws_len(t, 0) == a + ws_len(t, a as nat),
        decreases cs.len() - a,
    {
        a = a + 1;
    }
    let mut b: usize = cs.len();
    while b > 0 && white_space(cs[b - 1])
        invariant
            t == cs@,
            b <= cs.len(),
            trailing_ws(t, t.len()) == (cs.len() - b) + trailing_ws(t, b as nat),
        decreases b,
    {
        b = b - 1;
    }
    let mut out: Vec<char> = Vec::new();
    if a >= b {
        assert(out@ =~= trimmed(t));
        return out;
    }
    let mut k = a;
    while k < b
        invariant
            t == cs@,
            a <= k <= b <= cs.len(),
            ws_len(t, 0) == a,
            t.len() - trailing_ws(t, t.len()) == b,
            out@ == t.subrange(a as int, k as int),
        decreases b - k,
    {
        out.push(cs[k]);
        assert(t.subrange(a as int, k + 1) =~= t.subrange(a as int, k as int).push(t[k as int]));
        k = k + 1;
    }
    out
}

fn pane_of(item: &RankItem) -> (r: &str)
    ensures
        r@ == pane_text(item@),
{
    match &item.pane_id {
        Some(p) => p.as_str(),
        None => item.terminal_id.as_str(),
    }
}

/// What to call this agent in the list: its task if herdr knows one, else the pane it's in.
fn label(item: &RankItem) -> (r: String)
    ensures
        r@ == label_text(item@),
{
    let task = match &item.task {
        Some(t) => trim_chars(chars_of(t.as_str()).as_slice()),
        None => Vec::new(),
    };
    if task.len() > 0 {
        return trunc_chars(task.as_slice(), LABEL_WIDTH);
    }
    trunc(pane_of(item), LABEL_WIDTH)
}

fn push_spaces(out: &mut String, n: usize)
    ensures
        final(out)@ == old(out)@ + spaces(n as nat),
{
    let ghost start = out@;
    for i in 0..n
        invariant
            out@ == start + spaces(i as nat),
    {
        out.push(' ');
        assert(spaces((i + 1) as nat) =~= spaces(i as nat).push(' '));
    }
}

fn row(item: &RankItem) -> (r: String)
    ensures
        r@ == row_text(item@),
{
    let mut out = String::from_str(glyph(item.status.as_str()));
    out.append(" ");
    let wait = if text_is(item.status.as_str(), "blocked") {
        format_duration(item.in_status_ms)
    } else {
        String::from_str("—")
    };
    let wait_len = wait.as_str().unicode_len();
    if wait_len < 5 {
        push_spaces(&mut out, 5 - wait_len);
    }
    out.append(wait.as_str());
    out.append("  ");
    let name = label(item);
    out.append(name.as_str());
    let name_len = name.as_str().unicode_len();
    if name_len < LABEL_WIDTH {
        push_spaces(&mut out, LABEL_WIDTH - name_len);
    }
    out.append("  ");
    out.append(pane_of(item));
    proof {
        assert(out@ =~= row_text(item@));
    }
    out
}

/// Render the ranked agents as a compact, glanceable triage list.
pub fn render_triage(items: &[RankItem]) -> (r: String)
    ensures
        r@ == triage_text(items@.map_values(|i: RankItem| i@)),
{
    let ghost v = items@.map_values(|i: RankItem| i@);
    if items.len() == 0 {
        return String::from_str("No agents.");
    }
    let mut out = String::from_str("Attention triage — ");
    push_decimal(&mut out, items.len() as u64);
    out.append(" agent(s)");
    let ghost head = out@;
    assert(v.take(0) =~= Seq::<RankItemView>::empty());
    for i in 0..items.len()
        invariant
            v == items@.map_values(|i: RankItem| i@),
            out@ == head + rows_text(v.take(i as int)),
    {
        out.append("\n");
        let line = row(&items[i]);
        out.append(line.as_str());
        proof {
            assert(v.take(i + 1).drop_last() =~= v.take(i as int));
            assert(v.take(i + 1).last() == items@[i as int]@);
            assert(out@ =~= head + rows_text(v.take(i + 1)));
        }
    }
    proof {
        assert(v.take(items.len() as int) =~= v);
    }
    out
}

} // verus!
