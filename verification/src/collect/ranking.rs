//! Processes in the order of how much they move.
use vstd::prelude::*;

use crate::binary64::Double;
use crate::collect::processes::ProcessTick;

verus! {

/// `a` comes before `b`: it moves more bytes, or as many under a lower pid.
pub open spec fn busier(a: ProcessTick, b: ProcessTick) -> bool {
    ||| a.total().rank() > b.total().rank()
    ||| a.total().rank() == b.total().rank() && a.pid < b.pid
}

/// Each process is filed under its own pid, with a rate that can be compared.
pub open spec fn comparable(procs: Map<u32, ProcessTick>) -> bool {
    forall|pid: u32| #[trigger]
        procs.contains_key(pid) ==> procs[pid].pid == pid && !procs[pid].total().nan()
}

/// `order` holds exactly the processes of `procs`, busiest first.
pub open spec fn is_ranking(order: Seq<ProcessTick>, procs: Map<u32, ProcessTick>) -> bool {
    &&& forall|i: int, j: int| 0 <= i < j < order.len() ==> busier(order[i], order[j])
    &&& forall|i: int|
        0 <= i < order.len() ==> procs.contains_key((#[trigger] order[i]).pid)
            && procs[order[i].pid] == order[i]
    &&& forall|pid: u32| #[trigger]
        procs.contains_key(pid) ==> exists|i: int|
            0 <= i < order.len() && (#[trigger] order[i]).pid == pid
}

/// The processes of `procs`, busiest first.
pub open spec fn ranking(procs: Map<u32, ProcessTick>) -> Seq<ProcessTick> {
    choose|order: Seq<ProcessTick>| is_ranking(order, procs)
}

/// What references point at.
pub open spec fn ticks(refs: Seq<&ProcessTick>) -> Seq<ProcessTick> {
    Seq::new(refs.len(), |i: int| *refs[i])
}

/// There is only one ranking of a set of processes: ties in the rate are
/// settled by the pid.
pub proof fn lemma_ranking_unique(
    a: Seq<ProcessTick>,
    b: Seq<ProcessTick>,
    procs: Map<u32, ProcessTick>,
)
    requires
        is_ranking(a, procs),
        is_ranking(b, procs),
    ensures
        a == b,
    decreases a.len(),
{
    if a.len() == 0 {
        if b.len() > 0 {
            assert(procs.contains_key(b[0].pid));
            let i = choose|i: int| 0 <= i < a.len() && (#[trigger] a[i]).pid == b[0].pid;
            assert(false);
        }
        assert(a =~= b);
    } else {
        assert(procs.contains_key(a[0].pid));
        let j = choose|j: int| 0 <= j < b.len() && (#[trigger] b[j]).pid == a[0].pid;
        assert(b[j] == a[0]);
        assert(procs.contains_key(b[0].pid));
        let i = choose|i: int| 0 <= i < a.len() && (#[trigger] a[i]).pid == b[0].pid;
        assert(a[i] == b[0]);
        if j > 0 {
            assert(busier(b[0], b[j]));
            if i > 0 {
                assert(busier(a[0], a[i]));
            }
            assert(false);
        }
        let pid = a[0].pid;
        let rest = procs.remove(pid);
        lemma_ranking_rest(a, procs);
        lemma_ranking_rest(b, procs);
        lemma_ranking_unique(a.drop_first(), b.drop_first(), rest);
        assert(a =~= seq![a[0]] + a.drop_first());
        assert(b =~= seq![b[0]] + b.drop_first());
    }
}

proof fn lemma_ranking_rest(order: Seq<ProcessTick>, procs: Map<u32, ProcessTick>)
    requires
        is_ranking(order, procs),
        order.len() > 0,
    ensures
        is_ranking(order.drop_first(), procs.remove(order[0].pid)),
{
    let rest = order.drop_first();
    let fewer = procs.remove(order[0].pid);
    assert forall|i: int, j: int| 0 <= i < j < rest.len() implies busier(rest[i], rest[j]) by {
        assert(busier(order[i + 1], order[j + 1]));
    }
    assert forall|i: int| 0 <= i < rest.len() implies fewer.contains_key((#[trigger] rest[i]).pid)
        && fewer[rest[i].pid] == rest[i] by {
        assert(rest[i] == order[i + 1]);
        assert(busier(order[0], order[i + 1]));
        if order[0].pid == order[i + 1].pid {
            assert(order[0] == order[i + 1]);
        }
    }
    assert forall|pid: u32| #[trigger] fewer.contains_key(pid) implies exists|i: int|
        0 <= i < rest.len() && (#[trigger] rest[i]).pid == pid by {
        assert(procs.contains_key(pid));
        let i = choose|i: int| 0 <= i < order.len() && (#[trigger] order[i]).pid == pid;
        assert(rest[i - 1] == order[i]);
    }
}

/// A ranking is the ranking.
pub proof fn lemma_ranking_is(order: Seq<ProcessTick>, procs: Map<u32, ProcessTick>)
    requires
        is_ranking(order, procs),
    ensures
        ranking(procs) == order,
{
    lemma_ranking_unique(ranking(procs), order, procs);
}

/// Whether `a` comes before `b`.
fn precedes(a: &ProcessTick, b: &ProcessTick) -> (r: bool)
    requires
        !a.total().nan(),
        !b.total().nan(),
    ensures
        r == busier(*a, *b),
{
    let x: Double = a.total_bps();
    let y: Double = b.total_bps();
    if y.below(x) {
        true
    } else {
        !x.below(y) && a.pid < b.pid
    }
}

/// Puts one more process into a ranking.
pub(crate) fn insert_ranked<'a>(
    order: &mut Vec<&'a ProcessTick>,
    tick: &'a ProcessTick,
    Ghost(procs): Ghost<Map<u32, ProcessTick>>,
)
    requires
        comparable(procs),
        is_ranking(ticks(old(order)@), procs),
        !procs.contains_key(tick.pid),
        !tick.total().nan(),
    ensures
        is_ranking(ticks(final(order)@), procs.insert(tick.pid, *tick)),
{
    let ghost before = order@;
    let ghost listed = ticks(before);
    let mut at: usize = 0;
    while at < order.len() && precedes(order[at], tick)
        invariant
            at <= order.len(),
            order@ == before,
            listed == ticks(before),
            comparable(procs),
            is_ranking(listed, procs),
            !tick.total().nan(),
            forall|i: int| 0 <= i < at ==> busier(listed[i], *tick),
            at < order.len() ==> procs.contains_key(listed[at as int].pid) && *order@[at as int]
                == listed[at as int],
        decreases order.len() - at,
    {
        at = at + 1;
        assert(at < order.len() ==> procs.contains_key(listed[at as int].pid));
    }
    order.insert(at, tick);
    proof {
        let after = ticks(order@);
        let more = procs.insert(tick.pid, *tick);
        assert(order@ == before.insert(at as int, tick));
        assert forall|i: int| 0 <= i < at implies after[i] == listed[i] by {}
        assert(after[at as int] == *tick);
        assert forall|i: int| at < i < after.len() implies after[i] == listed[i - 1] by {}
        if at < listed.len() {
            assert(procs.contains_key(listed[at as int].pid));
            assert(listed[at as int].pid != tick.pid);
            assert(!busier(listed[at as int], *tick));
        }
        assert forall|i: int, j: int| 0 <= i < j < after.len() implies busier(
            after[i],
            after[j],
        ) by {
            if i < at && j > at {
                assert(busier(listed[i], listed[j - 1]));
            } else if i < at && j < at {
                assert(busier(listed[i], listed[j]));
            } else if i > at {
                assert(busier(listed[i - 1], listed[j - 1]));
            } else if i == at {
                assert(j > at);
                if j - 1 > at {
                    assert(busier(listed[at as int], listed[j - 1]));
                }
            }
        }
        assert forall|i: int| 0 <= i < after.len() implies more.contains_key(
            (#[trigger] after[i]).pid,
        ) && more[after[i].pid] == after[i] by {
            if i < at {
                assert(procs.contains_key(listed[i].pid));
            } else if i > at {
                assert(procs.contains_key(listed[i - 1].pid));
            }
        }
        assert forall|pid: u32| #[trigger] more.contains_key(pid) implies exists|i: int|
            0 <= i < after.len() && (#[trigger] after[i]).pid == pid by {
            if pid == tick.pid {
                assert(after[at as int].pid == pid);
            } else {
                assert(procs.contains_key(pid));
                let i = choose|i: int| 0 <= i < listed.len() && (#[trigger] listed[i]).pid == pid;
                if i < at {
                    assert(after[i].pid == pid);
                } else {
                    assert(after[i + 1].pid == pid);
                }
            }
        }
    }
}

} // verus!
