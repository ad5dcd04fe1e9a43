use vstd::prelude::*;

verus! {

use crate::event::{Event, EventV, clone_event};

/// The full-history filter, scanned from the most recent event
/// backward.  `m` events have been taken already, `last_ok` says
/// whether the event just above (after, in log order) was kept, so
/// that a command is kept only when something it caused is shown.
/// With `no_upgrades` upgrade events are dropped and break the
/// chain.  The result is in chronological order.
pub open spec fn hist_rec(
    events: Seq<EventV>,
    n: int,
    m: int,
    last_ok: bool,
    no_upgrades: bool,
) -> Seq<EventV>
    decreases events.len(),
{
    if events.len() == 0 {
        Seq::empty()
    } else {
        let rest = events.drop_last();
        let e = events.last();
        match e {
            EventV::Command(_, _) => {
                if last_ok {
                    if m + 1 >= n {
                        seq![e]
                    } else {
                        hist_rec(rest, n, m + 1, false, no_upgrades) + seq![e]
                    }
                } else {
                    hist_rec(rest, n, m, last_ok, no_upgrades)
                }
            },
            EventV::Upgraded(_, _, _) => {
                if m >= n {
                    hist_rec(rest, n, m, last_ok, no_upgrades)
                } else if !no_upgrades {
                    hist_rec(rest, n, m + 1, true, no_upgrades) + seq![e]
                } else {
                    hist_rec(rest, n, m, false, no_upgrades)
                }
            },
            _ => {
                if m >= n {
                    hist_rec(rest, n, m, last_ok, no_upgrades)
                } else {
                    hist_rec(rest, n, m + 1, true, no_upgrades) + seq![e]
                }
            },
        }
    }
}

/// The most recent stretch of the log that the full history shows:
/// about `n` events, commands only when what they caused is shown
/// too.
pub open spec fn history_filter(events: Seq<EventV>, n: int, no_upgrades: bool) -> Seq<EventV> {
    hist_rec(events, n, 0, false, no_upgrades)
}

/// Once the budget is exhausted and the chain is broken, the scan
/// takes nothing more.
proof fn lemma_hist_rec_saturated(events: Seq<EventV>, n: int, m: int, no_upgrades: bool)
    requires
        m >= n,
    ensures
        hist_rec(events, n, m, false, no_upgrades) == Seq::<EventV>::empty(),
    decreases events.len(),
{
    if events.len() > 0 {
        lemma_hist_rec_saturated(events.drop_last(), n, m, no_upgrades);
    }
}

/// The full history: the filtered stretch of most recent events, in
/// chronological order, each one a copy of a log event.
#[verifier::rlimit(100)]
pub fn history_full(events: &Vec<Event>, n: usize, no_upgrades: bool) -> (res: Vec<Event>)
    ensures
        res.deep_view() == history_filter(events.deep_view(), n as int, no_upgrades),
{
    let ghost dv = events.deep_view();
    let ghost goal = history_filter(dv, n as int, no_upgrades);
    let len = events.len();
    proof {
        assert(dv.len() == len);
        assert(dv.take(len as int) =~= dv);
    }
    let mut filtered: Vec<Event> = Vec::new();
    let mut m: usize = 0;
    let mut last_ok = false;
    let mut idx: usize = len;
    proof {
        assert(filtered.deep_view().reverse() =~= Seq::<EventV>::empty());
        assert(hist_rec(dv.take(len as int), n as int, 0, false, no_upgrades)
            + filtered.deep_view().reverse() =~= goal);
    }
    while idx > 0
        invariant
            idx <= len,
            len == dv.len(),
            dv == events.deep_view(),
            m <= n,
            hist_rec(dv.take(idx as int), n as int, m as int, last_ok, no_upgrades)
                + filtered.deep_view().reverse() == goal,
        decreases idx,
    {
        let ghost m0 = m as int;
        let ghost ok0 = last_ok;
        let ghost f0 = filtered.deep_view();
        idx -= 1;
        proof {
            assert(dv.take(idx + 1).drop_last() =~= dv.take(idx as int));
            assert(dv.take(idx + 1).last() == dv[idx as int]);
            assert(events@[idx as int]@ == dv[idx as int]);
        }
        let e = &events[idx];
        match e {
            Event::Command(_, _) => {
                if last_ok {
                    let copy = clone_event(e);
                    proof {
                        assert(copy@ == dv[idx as int]);
                    }
                    filtered.push(copy);
                    last_ok = false;
                    proof {
                        assert(filtered.deep_view() =~= f0.push(dv[idx as int]));
                        assert(filtered.deep_view().reverse() =~= seq![dv[idx as int]]
                            + f0.reverse());
                    }
                    if n - m <= 1 {
                        // the budget is spent: nothing further can be taken
                        m = n;
                        proof {
                            lemma_hist_rec_saturated(
                                dv.take(idx as int),
                                n as int,
                                m as int,
                                no_upgrades,
                            );
                            assert(hist_rec(dv.take(idx + 1), n as int, m0, ok0, no_upgrades)
                                =~= seq![dv[idx as int]]);
                            assert(hist_rec(
                                dv.take(idx as int),
                                n as int,
                                m as int,
                                last_ok,
                                no_upgrades,
                            ) + filtered.deep_view().reverse() =~= goal);
                        }
                    } else {
                        m = m + 1;
                        proof {
                            assert(hist_rec(dv.take(idx + 1), n as int, m0, ok0, no_upgrades)
                                == hist_rec(
                                dv.take(idx as int),
                                n as int,
                                m0 + 1,
                                false,
                                no_upgrades,
                            ) + seq![dv[idx as int]]);
                            assert(hist_rec(
                                dv.take(idx as int),
                                n as int,
                                m as int,
                                last_ok,
                                no_upgrades,
                            ) + filtered.deep_view().reverse() =~= goal);
                        }
                    }
                }
            },
            Event::Upgraded(_, _, _) => {
                if m >= n {
                } else if !no_upgrades {
                    let copy = clone_event(e);
                    proof {
                        assert(copy@ == dv[idx as int]);
                    }
                    filtered.push(copy);
                    last_ok = true;
                    m = m + 1;
                    proof {
                        assert(filtered.deep_view() =~= f0.push(dv[idx as int]));
                        assert(filtered.deep_view().reverse() =~= seq![dv[idx as int]]
                            + f0.reverse());
                        assert(hist_rec(
                            dv.take(idx as int),
                            n as int,
                            m as int,
                            last_ok,
                            no_upgrades,
                        ) + filtered.deep_view().reverse() =~= goal);
                    }
                } else {
                    last_ok = false;
                }
            },
            _ => {
                if m < n {
                    let copy = clone_event(e);
                    proof {
                        assert(copy@ == dv[idx as int]);
                    }
                    filtered.push(copy);
                    last_ok = true;
                    m = m + 1;
                    proof {
                        assert(dv[idx as int] matches EventV::Installed(_, _, _) || dv[idx as int]
                            matches EventV::Removed(_, _, _) || dv[idx as int]
                            matches EventV::Downgraded(_, _, _));
                        assert(filtered.deep_view() =~= f0.push(dv[idx as int]));
                        assert(filtered.deep_view().reverse() =~= seq![dv[idx as int]]
                            + f0.reverse());
                        assert(hist_rec(
                            dv.take(idx as int),
                            n as int,
                            m as int,
                            last_ok,
                            no_upgrades,
                        ) + filtered.deep_view().reverse() =~= goal);
                    }
                }
            },
        }
    }
    proof {
        assert(dv.take(0).len() == 0);
        assert(hist_rec(dv.take(0), n as int, m as int, last_ok, no_upgrades)
            == Seq::<EventV>::empty());
        assert(filtered.deep_view().reverse() == goal);
    }

    // restore chronological order
    let ghost fl = filtered.deep_view();
    let mut res: Vec<Event> = Vec::new();
    proof {
        assert(res.deep_view() + fl.reverse() =~= fl.reverse());
    }
    while filtered.len() > 0
        invariant
            fl.reverse() == goal,
            res.deep_view() + filtered.deep_view().reverse() == fl.reverse(),
        decreases filtered.len(),
    {
        let ghost fpre = filtered.deep_view();
        let ghost rpre = res.deep_view();
        let last = filtered.pop();
        if let Some(x) = last {
            proof {
                assert(filtered.deep_view() =~= fpre.drop_last());
                assert(x.deep_view() == fpre.last());
                assert(fpre.reverse() =~= seq![fpre.last()] + fpre.drop_last().reverse());
            }
            res.push(x);
            proof {
                assert(res.deep_view() =~= rpre.push(fpre.last()));
                assert(rpre.push(fpre.last()) + filtered.deep_view().reverse() =~= rpre
                    + fpre.reverse());
            }
        }
    }
    proof {
        assert(filtered.deep_view().reverse() =~= Seq::<EventV>::empty());
        assert(res.deep_view() + filtered.deep_view().reverse() =~= res.deep_view());
    }
    res
}

} // verus!
