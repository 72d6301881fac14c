//! Attention priority: who needs you first.
//!
//! Scores themselves are computed by the caller (they are floating-point weights and
//! bonuses); this module fixes the order of attention once each item has an integer key
//! that orders the same way its score does.

use vstd::prelude::*;
use crate::herdr::{Agent, opt_view};

verus! {

/// One agent as the ranking sees it.
#[derive(Debug, Clone, PartialEq)]
pub struct RankItem {
    pub terminal_id: String,
    pub agent: Option<String>,
    pub pane_id: Option<String>,
    pub task: Option<String>,
    pub cwd: Option<String>,
    pub status: String,
    /// How long the agent has been in its current status (ms).
    pub in_status_ms: u64,
}

pub struct RankItemView {
    pub terminal_id: Seq<char>,
    pub agent: Option<Seq<char>>,
    pub pane_id: Option<Seq<char>>,
    pub task: Option<Seq<char>>,
    pub cwd: Option<Seq<char>>,
    pub status: Seq<char>,
    pub in_status_ms: u64,
}

impl View for RankItem {
    type V = RankItemView;

    open spec fn view(&self) -> RankItemView {
        RankItemView {
            terminal_id: self.terminal_id@,
            agent: opt_view(self.agent),
            pane_id: opt_view(self.pane_id),
            task: opt_view(self.task),
            cwd: opt_view(self.cwd),
            status: self.status@,
            in_status_ms: self.in_status_ms,
        }
    }
}

fn clone_opt(o: &Option<String>) -> (r: Option<String>)
    ensures
        opt_view(r) == opt_view(*o),
{
    match o {
        Some(s) => Some(s.clone()),
        None => None,
    }
}

impl RankItem {
    pub fn from_agent(a: &Agent, in_status_ms: u64) -> (r: RankItem)
        ensures
            r@ == (RankItemView {
                terminal_id: a@.terminal_id,
                agent: a@.agent,
                pane_id: a@.pane_id,
                task: a@.task,
                cwd: a@.cwd,
                status: a@.status,
                in_status_ms,
            }),
    {
        RankItem {
            terminal_id: a.terminal_id.clone(),
            agent: clone_opt(&a.agent),
            pane_id: clone_opt(&a.pane_id),
            task: clone_opt(&a.task),
            cwd: clone_opt(&a.cwd),
            status: a.status.clone(),
            in_status_ms,
        }
    }
}

/// Whether item `x` comes before item `y`: a higher score first, then the longer time in
/// status, then the earlier position.
pub open spec fn precedes(keys: Seq<u64>, waits: Seq<u64>, x: int, y: int) -> bool {
    ||| keys[x] > keys[y]
    ||| keys[x] == keys[y] && waits[x] > waits[y]
    ||| keys[x] == keys[y] && waits[x] == waits[y] && x < y
}

/// `order` lists each position `0..n` once, in the order of attention.
pub open spec fn is_attention_order(keys: Seq<u64>, waits: Seq<u64>, order: Seq<usize>) -> bool {
    &&& order.len() == keys.len()
    &&& forall|j: int| 0 <= j < order.len() ==> (#[trigger] order[j]) < keys.len()
    &&& forall|k: usize| k < keys.len() ==> #[trigger] order.contains(k)
    &&& forall|a: int, b: int|
        0 <= a < b < order.len() ==> precedes(keys, waits, #[trigger] order[a] as int, #[trigger] order[b] as int)
}

/// The order in which items need attention: highest key first, ties broken by the longer
/// time in status, and items equal on both keep their input order.
pub fn attention_order(keys: &[u64], waits: &[u64]) -> (order: Vec<usize>)
    requires
        keys.len() == waits.len(),
    ensures
        is_attention_order(keys@, waits@, order@),
{
    let mut order: Vec<usize> = Vec::new();
    let n = keys.len();
    for i in 0..n
        invariant
            n == keys.len(),
            n == waits.len(),
            order@.len() == i,
            forall|j: int| 0 <= j < order@.len() ==> (#[trigger] order@[j]) < i,
            forall|k: usize| k < i ==> #[trigger] order@.contains(k),
            forall|a: int, b: int|
                0 <= a < b < order@.len() ==> precedes(keys@, waits@, #[trigger] order@[a] as int, #[trigger] order@[b] as int),
    {
        // find the first place whose item the new one comes before
        let mut p: usize = 0;
        while p < order.len()
            invariant
                n == keys.len(),
                n == waits.len(),
                i < n,
                p <= order.len(),
                forall|j: int| 0 <= j < order@.len() ==> (#[trigger] order@[j]) < i,
                forall|j: int| 0 <= j < p ==> precedes(keys@, waits@, #[trigger] order@[j] as int, i as int),
            ensures
                p <= order.len(),
                forall|j: int| 0 <= j < p ==> precedes(keys@, waits@, #[trigger] order@[j] as int, i as int),
                p < order.len() ==> (keys@[i as int] > keys@[order@[p as int] as int] || (keys@[i as int]
                    == keys@[order@[p as int] as int] && waits@[i as int] > waits@[order@[p as int] as int])),
            decreases order.len() - p,
        {
            let o = order[p];
            if keys[i] > keys[o] || (keys[i] == keys[o] && waits[i] > waits[o]) {
                break;
            }
            p = p + 1;
        }
        let ghost before = order@;
        order.insert(p, i);
        proof {
            assert forall|j: int| 0 <= j < order@.len() implies (#[trigger] order@[j]) < i + 1 by {
                if j < p {
                    assert(order@[j] == before[j]);
                } else if j > p {
                    assert(order@[j] == before[j - 1]);
                }
            }
            assert forall|k: usize| k < i + 1 implies #[trigger] order@.contains(k) by {
                if k == i {
                    assert(order@[p as int] == i);
                } else {
                    assert(before.contains(k));
                    let j = choose|j: int| 0 <= j < before.len() && before[j] == k;
                    if j < p {
                        assert(order@[j] == before[j]);
                    } else {
                        assert(order@[j + 1] == before[j]);
                    }
                }
            }
            assert forall|a: int, b: int| 0 <= a < b < order@.len() implies precedes(
                keys@,
                waits@,
                #[trigger] order@[a] as int,
                #[trigger] order@[b] as int,
            ) by {
                if b < p {
                    assert(order@[a] == before[a] && order@[b] == before[b]);
                } else if b == p {
                    assert(order@[a] == before[a]);
                } else if a == p {
                    assert(order@[b] == before[b - 1]);
                    if p < before.len() {
                        assert(order@[p + 1] == before[p as int]);
                        let o = before[p as int];
                        assert(precedes(keys@, waits@, i as int, o as int));
                        if b - 1 > p {
                            assert(precedes(keys@, waits@, o as int, before[b - 1] as int));
                        }
                    }
                } else if a < p {
                    assert(order@[a] == before[a] && order@[b] == before[b - 1]);
                } else {
                    assert(order@[a] == before[a - 1] && order@[b] == before[b - 1]);
                }
            }
        }
    }
    order
}

} // verus!
