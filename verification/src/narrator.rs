use vstd::prelude::*;

verus! {

use crate::timestamp::{Dt, dt_le};
use crate::event::{Event, EventV};
use crate::strutil::split_spaces;

/// The verb a count-mode transaction line carries: pure installs,
/// pure removes, or anything mixed.
#[derive(Clone, Copy, PartialEq, Eq, Structural, Debug)]
pub enum CountVerb {
    Install,
    Remove,
    Complex,
}

/// One emitted transaction line of the compact history, as
/// structured data; colouring and layout are a caller's concern.
///
/// `Count` decorates the transaction with the signed net package
/// delta and the running installed-package total after it.
/// `Singular` is a transaction with at most one of
/// installs/removes/downgrades, no upgrades and at least one named
/// package.  `Complex` renders all four categories and the raw
/// command.
pub enum Summary {
    Count {
        dt: Dt,
        diff: i128,
        after: i128,
        verb: CountVerb,
        named: Vec<String>,
        command: String,
    },
    Singular {
        dt: Dt,
        has_install: bool,
        has_remove: bool,
        has_downgrade: bool,
        named: Vec<String>,
        unnamed: Vec<String>,
    },
    Complex {
        dt: Dt,
        upgrades: Vec<String>,
        downgrades: Vec<String>,
        installs: Vec<String>,
        removes: Vec<String>,
        command: String,
    },
}

/// The mathematical value of a `Summary`.
pub enum SummaryV {
    Count {
        dt: Dt,
        diff: int,
        after: int,
        verb: CountVerb,
        named: Seq<Seq<char>>,
        command: Seq<char>,
    },
    Singular {
        dt: Dt,
        has_install: bool,
        has_remove: bool,
        has_downgrade: bool,
        named: Seq<Seq<char>>,
        unnamed: Seq<Seq<char>>,
    },
    Complex {
        dt: Dt,
        upgrades: Seq<Seq<char>>,
        downgrades: Seq<Seq<char>>,
        installs: Seq<Seq<char>>,
        removes: Seq<Seq<char>>,
        command: Seq<char>,
    },
}

impl View for Summary {
    type V = SummaryV;

    open spec fn view(&self) -> SummaryV {
        match self {
            Summary::Count { dt, diff, after, verb, named, command } => SummaryV::Count {
                dt: *dt,
                diff: *diff as int,
                after: *after as int,
                verb: *verb,
                named: named.deep_view(),
                command: command@,
            },
            Summary::Singular { dt, has_install, has_remove, has_downgrade, named, unnamed } => SummaryV::Singular {
                dt: *dt,
                has_install: *has_install,
                has_remove: *has_remove,
                has_downgrade: *has_downgrade,
                named: named.deep_view(),
                unnamed: unnamed.deep_view(),
            },
            Summary::Complex { dt, upgrades, downgrades, installs, removes, command } => SummaryV::Complex {
                dt: *dt,
                upgrades: upgrades.deep_view(),
                downgrades: downgrades.deep_view(),
                installs: installs.deep_view(),
                removes: removes.deep_view(),
                command: command@,
            },
        }
    }
}

impl DeepView for Summary {
    type V = SummaryV;

    open spec fn deep_view(&self) -> SummaryV {
        self.view()
    }
}

impl SummaryV {
    /// The timestamp of the triggering command.
    pub open spec fn dt(self) -> Dt {
        match self {
            SummaryV::Count { dt, .. } => dt,
            SummaryV::Singular { dt, .. } => dt,
            SummaryV::Complex { dt, .. } => dt,
        }
    }
}

/// The four package-name accumulators of the reverse scan, each in
/// the order the scan pushed them (most recent first).
pub struct AccV {
    pub installs: Seq<Seq<char>>,
    pub removes: Seq<Seq<char>>,
    pub upgrades: Seq<Seq<char>>,
    pub downgrades: Seq<Seq<char>>,
}

pub open spec fn empty_acc() -> AccV {
    AccV {
        installs: Seq::empty(),
        removes: Seq::empty(),
        upgrades: Seq::empty(),
        downgrades: Seq::empty(),
    }
}

/// All accumulated names, in the order the narrator walks them:
/// installs, removes, upgrades, downgrades.
pub open spec fn chained(acc: AccV) -> Seq<Seq<char>> {
    acc.installs + acc.removes + acc.upgrades + acc.downgrades
}

/// The accumulated names that appear verbatim as a word of the
/// command, in accumulator order.
pub open spec fn named_of(pkgs: Seq<Seq<char>>, words: Seq<Seq<char>>) -> Seq<Seq<char>>
    decreases pkgs.len(),
{
    if pkgs.len() == 0 {
        Seq::empty()
    } else if words.contains(pkgs.last()) {
        named_of(pkgs.drop_last(), words).push(pkgs.last())
    } else {
        named_of(pkgs.drop_last(), words)
    }
}

/// The accumulated names that do not appear as a word of the
/// command: pulled in indirectly, e.g. as dependencies.
pub open spec fn unnamed_of(pkgs: Seq<Seq<char>>, words: Seq<Seq<char>>) -> Seq<Seq<char>>
    decreases pkgs.len(),
{
    if pkgs.len() == 0 {
        Seq::empty()
    } else if !words.contains(pkgs.last()) {
        unnamed_of(pkgs.drop_last(), words).push(pkgs.last())
    } else {
        unnamed_of(pkgs.drop_last(), words)
    }
}

/// Partitioning distributes over concatenation of accumulators.
pub proof fn lemma_partition_add(a: Seq<Seq<char>>, b: Seq<Seq<char>>, words: Seq<Seq<char>>)
    ensures
        named_of(a + b, words) == named_of(a, words) + named_of(b, words),
        unnamed_of(a + b, words) == unnamed_of(a, words) + unnamed_of(b, words),
    decreases b.len(),
{
    if b.len() == 0 {
        assert(a + b =~= a);
        assert(named_of(a, words) + named_of(b, words) =~= named_of(a, words));
        assert(unnamed_of(a, words) + unnamed_of(b, words) =~= unnamed_of(a, words));
    } else {
        lemma_partition_add(a, b.drop_last(), words);
        assert((a + b).drop_last() =~= a + b.drop_last());
        assert((a + b).last() == b.last());
        if words.contains(b.last()) {
            assert(named_of(a, words) + named_of(b.drop_last(), words).push(b.last())
                =~= (named_of(a, words) + named_of(b.drop_last(), words)).push(b.last()));
        } else {
            assert(unnamed_of(a, words) + unnamed_of(b.drop_last(), words).push(b.last())
                =~= (unnamed_of(a, words) + unnamed_of(b.drop_last(), words)).push(b.last()));
        }
    }
}

/// A transaction is singular when at most one of installs, removes
/// and downgrades is present; upgrades do not count toward the
/// threshold.
pub open spec fn is_singular(acc: AccV) -> bool {
    (if acc.installs.len() > 0 {
        1int
    } else {
        0int
    }) + (if acc.removes.len() > 0 {
        1int
    } else {
        0int
    }) + (if acc.downgrades.len() > 0 {
        1int
    } else {
        0int
    }) < 2
}

pub open spec fn count_verb_of(hi: bool, hr: bool, hud: bool) -> CountVerb {
    if hi && !hr && !hud {
        CountVerb::Install
    } else if !hi && hr && !hud {
        CountVerb::Remove
    } else {
        CountVerb::Complex
    }
}

/// What one command event emits, given the accumulated package
/// events above it: a count-mode line, a singular line, a complex
/// line, or nothing (the transaction is skipped and costs no
/// budget).  `packages` is the running installed-package total after
/// this transaction.
pub open spec fn command_summary(
    dt: Dt,
    cmd: Seq<char>,
    acc: AccV,
    count: bool,
    packages: int,
) -> Option<SummaryV> {
    let words = split_spaces(cmd);
    let named = named_of(chained(acc), words);
    let unnamed = unnamed_of(chained(acc), words);
    let hi = acc.installs.len() > 0;
    let hr = acc.removes.len() > 0;
    let hu = acc.upgrades.len() > 0;
    let hd = acc.downgrades.len() > 0;
    if count && (hi || hr || hd) {
        Some(
            SummaryV::Count {
                dt,
                diff: acc.installs.len() - acc.removes.len(),
                after: packages,
                verb: count_verb_of(hi, hr, hu || hd),
                named,
                command: cmd,
            },
        )
    } else if is_singular(acc) && !hu && named.len() > 0 {
        Some(
            SummaryV::Singular {
                dt,
                has_install: hi,
                has_remove: hr,
                has_downgrade: hd,
                named,
                unnamed,
            },
        )
    } else if !is_singular(acc) {
        Some(
            SummaryV::Complex {
                dt,
                upgrades: acc.upgrades,
                downgrades: acc.downgrades,
                installs: acc.installs,
                removes: acc.removes,
                command: cmd,
            },
        )
    } else {
        None
    }
}

/// The net number of installed packages a log leaves behind: one up
/// per install, one down per remove.
pub open spec fn net_installs(events: Seq<EventV>) -> int
    decreases events.len(),
{
    if events.len() == 0 {
        0
    } else {
        net_installs(events.drop_last()) + match events.last() {
            EventV::Installed(_, _, _) => 1int,
            EventV::Removed(_, _, _) => -1int,
            _ => 0int,
        }
    }
}

pub proof fn lemma_net_installs_bounds(events: Seq<EventV>)
    ensures
        -events.len() <= net_installs(events) <= events.len(),
    decreases events.len(),
{
    if events.len() > 0 {
        lemma_net_installs_bounds(events.drop_last());
    }
}

/// The compact narration of `events`, scanned from the most recent
/// event backward with accumulators `acc`, at most `budget` more
/// lines, in chronological order.  A leading run of package events
/// with no preceding command is never flushed.
pub open spec fn narrate_rec(
    events: Seq<EventV>,
    acc: AccV,
    budget: nat,
    count: bool,
    packages: int,
) -> Seq<SummaryV>
    decreases events.len(),
{
    if events.len() == 0 || budget == 0 {
        Seq::empty()
    } else {
        let rest = events.drop_last();
        match events.last() {
            EventV::Command(dt, cmd) => {
                let emitted = command_summary(dt, cmd, acc, count, packages);
                let packages2 = if count {
                    packages - (acc.installs.len() - acc.removes.len())
                } else {
                    packages
                };
                match emitted {
                    Some(sv) => narrate_rec(rest, empty_acc(), (budget - 1) as nat, count, packages2)
                        + seq![sv],
                    None => narrate_rec(rest, empty_acc(), budget, count, packages2),
                }
            },
            EventV::Installed(_, n, _) => narrate_rec(
                rest,
                AccV { installs: acc.installs.push(n), ..acc },
                budget,
                count,
                packages,
            ),
            EventV::Removed(_, n, _) => narrate_rec(
                rest,
                AccV { removes: acc.removes.push(n), ..acc },
                budget,
                count,
                packages,
            ),
            EventV::Upgraded(_, n, _) => narrate_rec(
                rest,
                AccV { upgrades: acc.upgrades.push(n), ..acc },
                budget,
                count,
                packages,
            ),
            EventV::Downgraded(_, n, _) => narrate_rec(
                rest,
                AccV { downgrades: acc.downgrades.push(n), ..acc },
                budget,
                count,
                packages,
            ),
        }
    }
}

/// The whole compact narration: scan everything, fresh accumulators,
/// the running total seeded with the net of the whole log.
pub open spec fn narration(events: Seq<EventV>, n: nat, count: bool) -> Seq<SummaryV> {
    narrate_rec(events, empty_acc(), n, count, net_installs(events))
}

/// Narrator budget law: a scan with `budget` lines left emits at
/// most `budget` lines.
pub proof fn lemma_narrate_rec_budget(
    events: Seq<EventV>,
    acc: AccV,
    budget: nat,
    count: bool,
    packages: int,
)
    ensures
        narrate_rec(events, acc, budget, count, packages).len() <= budget,
    decreases events.len(),
{
    if events.len() == 0 || budget == 0 {
    } else {
        let rest = events.drop_last();
        match events.last() {
            EventV::Command(dt, cmd) => {
                let packages2 = if count {
                    packages - (acc.installs.len() - acc.removes.len())
                } else {
                    packages
                };
                lemma_narrate_rec_budget(rest, empty_acc(), (budget - 1) as nat, count, packages2);
                lemma_narrate_rec_budget(rest, empty_acc(), budget, count, packages2);
            },
            EventV::Installed(_, n, _) => {
                lemma_narrate_rec_budget(
                    rest,
                    AccV { installs: acc.installs.push(n), ..acc },
                    budget,
                    count,
                    packages,
                );
            },
            EventV::Removed(_, n, _) => {
                lemma_narrate_rec_budget(
                    rest,
                    AccV { removes: acc.removes.push(n), ..acc },
                    budget,
                    count,
                    packages,
                );
            },
            EventV::Upgraded(_, n, _) => {
                lemma_narrate_rec_budget(
                    rest,
                    AccV { upgrades: acc.upgrades.push(n), ..acc },
                    budget,
                    count,
                    packages,
                );
            },
            EventV::Downgraded(_, n, _) => {
                lemma_narrate_rec_budget(
                    rest,
                    AccV { downgrades: acc.downgrades.push(n), ..acc },
                    budget,
                    count,
                    packages,
                );
            },
        }
    }
}

/// Narrator budget law, at the top level: for any `n`, at most `n`
/// lines are emitted.
pub proof fn lemma_narrator_budget_law(events: Seq<EventV>, n: nat, count: bool)
    ensures
        narration(events, n, count).len() <= n,
{
    lemma_narrate_rec_budget(events, empty_acc(), n, count, net_installs(events));
}

/// Whether the emitted lines stand in chronological order.
pub open spec fn summaries_chronological(svs: Seq<SummaryV>) -> bool {
    forall|i: int, j: int|
        0 <= i <= j < svs.len() ==> dt_le(#[trigger] svs[i].dt(), #[trigger] svs[j].dt())
}

/// The set of timestamps of the command events of a log.
pub open spec fn command_dts(events: Seq<EventV>) -> Set<Dt>
    decreases events.len(),
{
    if events.len() == 0 {
        Set::empty()
    } else {
        let rest = command_dts(events.drop_last());
        if events.last().is_command() {
            rest.insert(events.last().dt())
        } else {
            rest
        }
    }
}

/// Every emitted line carries the timestamp of some command event of
/// the scanned range.
pub open spec fn summaries_from_commands(svs: Seq<SummaryV>, events: Seq<EventV>) -> bool {
    forall|k: int|
        0 <= k < svs.len() ==> command_dts(events).contains(#[trigger] svs[k].dt())
}

/// On a chronological log, no command's timestamp lies after the
/// last event's.
proof fn lemma_command_dts_le_last(events: Seq<EventV>, d: Dt)
    requires
        crate::event::chronological(events),
        events.len() > 0,
        command_dts(events).contains(d),
    ensures
        dt_le(d, events.last().dt()),
    decreases events.len(),
{
    let rest = events.drop_last();
    if events.last().is_command() && d == events.last().dt() {
    } else {
        assert(command_dts(rest).contains(d));
        if rest.len() == 0 {
            assert(command_dts(rest) =~= Set::empty());
        }
        assert(crate::event::chronological(rest)) by {
            assert(forall|i: int| 0 <= i < rest.len() ==> rest[i] == events[i]);
        }
        lemma_command_dts_le_last(rest, d);
        assert(rest.last() == events[events.len() - 2]);
        assert(events.last() == events[events.len() - 1]);
        assert(dt_le(events[events.len() - 2].dt(), events[events.len() - 1].dt()));
        crate::timestamp::lemma_dt_le_trans(d, rest.last().dt(), events.last().dt());
    }
}

/// Every line the scan emits carries the timestamp of some command
/// event of the scanned range, and the lines come out in
/// chronological order whenever the log itself is chronological.
proof fn lemma_narrate_rec_chronological(
    events: Seq<EventV>,
    acc: AccV,
    budget: nat,
    count: bool,
    packages: int,
)
    requires
        crate::event::chronological(events),
    ensures
        summaries_chronological(narrate_rec(events, acc, budget, count, packages)),
        summaries_from_commands(narrate_rec(events, acc, budget, count, packages), events),
    decreases events.len(),
{
    if events.len() == 0 || budget == 0 {
    } else {
        let res = narrate_rec(events, acc, budget, count, packages);
        let rest = events.drop_last();
        assert(crate::event::chronological(rest)) by {
            assert(forall|i: int| 0 <= i < rest.len() ==> rest[i] == events[i]);
        }
        assert forall|d: Dt| #[trigger] command_dts(rest).contains(d) implies command_dts(
            events,
        ).contains(d) by {}
        match events.last() {
            EventV::Command(dt, cmd) => {
                assert(events.last().is_command());
                assert(command_dts(events).contains(dt));
                let emitted = command_summary(dt, cmd, acc, count, packages);
                let packages2 = if count {
                    packages - (acc.installs.len() - acc.removes.len())
                } else {
                    packages
                };
                match emitted {
                    Some(sv) => {
                        let sub = narrate_rec(
                            rest,
                            empty_acc(),
                            (budget - 1) as nat,
                            count,
                            packages2,
                        );
                        lemma_narrate_rec_chronological(
                            rest,
                            empty_acc(),
                            (budget - 1) as nat,
                            count,
                            packages2,
                        );
                        assert(sv.dt() == dt);
                        assert(res == sub + seq![sv]);
                        assert forall|k: int| 0 <= k < res.len() implies command_dts(
                            events,
                        ).contains(#[trigger] res[k].dt()) by {
                            if k < sub.len() {
                                assert(res[k] == sub[k]);
                                assert(command_dts(rest).contains(sub[k].dt()));
                            } else {
                                assert(res[k] == sv);
                            }
                        }
                        assert(summaries_from_commands(res, events));
                        assert forall|i: int, j: int| 0 <= i <= j < res.len() implies dt_le(
                            res[i].dt(),
                            res[j].dt(),
                        ) by {
                            if j < sub.len() {
                                assert(res[i] == sub[i] && res[j] == sub[j]);
                                assert(dt_le(sub[i].dt(), sub[j].dt()));
                            } else {
                                assert(res[j] == sv);
                                if i < sub.len() {
                                    assert(res[i] == sub[i]);
                                    assert(command_dts(rest).contains(sub[i].dt()));
                                    lemma_command_dts_le_last(rest, sub[i].dt());
                                    assert(rest.last() == events[events.len() - 2]);
                                    assert(dt_le(
                                        events[events.len() - 2].dt(),
                                        events[events.len() - 1].dt(),
                                    ));
                                    crate::timestamp::lemma_dt_le_trans(
                                        sub[i].dt(),
                                        rest.last().dt(),
                                        dt,
                                    );
                                } else {
                                    assert(res[i] == sv);
                                }
                            }
                        }
                        assert(summaries_chronological(res));
                    },
                    None => {
                        let sub = narrate_rec(rest, empty_acc(), budget, count, packages2);
                        lemma_narrate_rec_chronological(rest, empty_acc(), budget, count, packages2);
                        assert(res == sub);
                        assert forall|k: int| 0 <= k < res.len() implies command_dts(
                            events,
                        ).contains(#[trigger] res[k].dt()) by {
                            assert(res[k] == sub[k]);
                            assert(command_dts(rest).contains(sub[k].dt()));
                        }
                        assert(summaries_from_commands(res, events));
                        assert(summaries_chronological(res));
                    },
                }
            },
            EventV::Installed(_, n, _) => {
                let acc2 = AccV { installs: acc.installs.push(n), ..acc };
                let sub = narrate_rec(rest, acc2, budget, count, packages);
                lemma_narrate_rec_chronological(rest, acc2, budget, count, packages);
                assert(res == sub);
                assert forall|k: int| 0 <= k < res.len() implies command_dts(events).contains(
                    #[trigger] res[k].dt(),
                ) by {
                    assert(res[k] == sub[k]);
                    assert(command_dts(rest).contains(sub[k].dt()));
                }
                assert(summaries_from_commands(res, events));
                assert(summaries_chronological(res));
            },
            EventV::Removed(_, n, _) => {
                let acc2 = AccV { removes: acc.removes.push(n), ..acc };
                let sub = narrate_rec(rest, acc2, budget, count, packages);
                lemma_narrate_rec_chronological(rest, acc2, budget, count, packages);
                assert(res == sub);
                assert forall|k: int| 0 <= k < res.len() implies command_dts(events).contains(
                    #[trigger] res[k].dt(),
                ) by {
                    assert(res[k] == sub[k]);
                    assert(command_dts(rest).contains(sub[k].dt()));
                }
                assert(summaries_from_commands(res, events));
                assert(summaries_chronological(res));
            },
            EventV::Upgraded(_, n, _) => {
                let acc2 = AccV { upgrades: acc.upgrades.push(n), ..acc };
                let sub = narrate_rec(rest, acc2, budget, count, packages);
                lemma_narrate_rec_chronological(rest, acc2, budget, count, packages);
                assert(res == sub);
                assert forall|k: int| 0 <= k < res.len() implies command_dts(events).contains(
                    #[trigger] res[k].dt(),
                ) by {
                    assert(res[k] == sub[k]);
                    assert(command_dts(rest).contains(sub[k].dt()));
                }
                assert(summaries_from_commands(res, events));
                assert(summaries_chronological(res));
            },
            EventV::Downgraded(_, n, _) => {
                let acc2 = AccV { downgrades: acc.downgrades.push(n), ..acc };
                let sub = narrate_rec(rest, acc2, budget, count, packages);
                lemma_narrate_rec_chronological(rest, acc2, budget, count, packages);
                assert(res == sub);
                assert forall|k: int| 0 <= k < res.len() implies command_dts(events).contains(
                    #[trigger] res[k].dt(),
                ) by {
                    assert(res[k] == sub[k]);
                    assert(command_dts(rest).contains(sub[k].dt()));
                }
                assert(summaries_from_commands(res, events));
                assert(summaries_chronological(res));
            },
        }
    }
}

/// Narrator order law: on a chronological log the emitted lines'
/// timestamps are non-decreasing in the final, chronological output,
/// and every line carries the timestamp of some command event.
pub proof fn lemma_narrator_chronological(events: Seq<EventV>, n: nat, count: bool)
    requires
        crate::event::chronological(events),
    ensures
        summaries_chronological(narration(events, n, count)),
        summaries_from_commands(narration(events, n, count), events),
{
    lemma_narrate_rec_chronological(events, empty_acc(), n, count, net_installs(events));
}

/// Sorts every accumulated name into named or unnamed, depending on
/// whether it stands verbatim among the command's words.
fn partition_named(
    words: &Vec<String>,
    pkgs: &Vec<String>,
    named: &mut Vec<String>,
    unnamed: &mut Vec<String>,
)
    ensures
        final(named).deep_view() == old(named).deep_view() + named_of(
            pkgs.deep_view(),
            words.deep_view(),
        ),
        final(unnamed).deep_view() == old(unnamed).deep_view() + unnamed_of(
            pkgs.deep_view(),
            words.deep_view(),
        ),
{
    let ghost w = words.deep_view();
    let ghost pv = pkgs.deep_view();
    let n = pkgs.len();
    proof {
        assert(pv.len() == n);
        assert(pv.take(0) =~= Seq::<Seq<char>>::empty());
        assert(named.deep_view() =~~= old(named).deep_view() + named_of(pv.take(0), w));
        assert(unnamed.deep_view() =~~= old(unnamed).deep_view() + unnamed_of(pv.take(0), w));
    }
    let mut k: usize = 0;
    while k < n
        invariant
            k <= n,
            n == pkgs@.len(),
            w == words.deep_view(),
            pv == pkgs.deep_view(),
            named.deep_view() == old(named).deep_view() + named_of(pv.take(k as int), w),
            unnamed.deep_view() == old(unnamed).deep_view() + unnamed_of(pv.take(k as int), w),
        decreases n - k,
    {
        proof {
            assert(pv.take(k + 1).drop_last() =~= pv.take(k as int));
            assert(pv.take(k + 1).last() == pv[k as int]);
            assert(pkgs@[k as int]@ == pv[k as int]);
        }
        let p = &pkgs[k];
        let ghost xv = pv[k as int];
        let ghost named_pre = named.deep_view();
        let ghost unnamed_pre = unnamed.deep_view();
        if crate::strutil::contains_str(words, p) {
            named.push(p.clone());
            proof {
                assert(w.contains(pv.take(k + 1).last()));
                assert(named_of(pv.take(k + 1), w) == named_of(pv.take(k as int), w).push(xv));
                assert(unnamed_of(pv.take(k + 1), w) == unnamed_of(pv.take(k as int), w));
                assert(named.deep_view() =~~= named_pre.push(xv));
                assert(old(named).deep_view() + named_of(pv.take(k as int), w).push(xv)
                    =~~= (old(named).deep_view() + named_of(pv.take(k as int), w)).push(xv));
                assert(named.deep_view() =~~= old(named).deep_view() + named_of(pv.take(k + 1), w));
            }
        } else {
            unnamed.push(p.clone());
            proof {
                assert(!w.contains(pv.take(k + 1).last()));
                assert(unnamed_of(pv.take(k + 1), w) == unnamed_of(pv.take(k as int), w).push(xv));
                assert(named_of(pv.take(k + 1), w) == named_of(pv.take(k as int), w));
                assert(unnamed.deep_view() =~~= unnamed_pre.push(xv));
                assert(old(unnamed).deep_view() + unnamed_of(pv.take(k as int), w).push(xv)
                    =~~= (old(unnamed).deep_view() + unnamed_of(pv.take(k as int), w)).push(xv));
                assert(unnamed.deep_view() =~~= old(unnamed).deep_view() + unnamed_of(
                    pv.take(k + 1),
                    w,
                ));
            }
        }
        k += 1;
    }
    proof {
        assert(pv.take(n as int) =~= pv);
    }
}

/// The compact transaction history: scans the events most recent
/// first, groups each run of package events under the command below
/// it, classifies each such transaction, and returns at most `n`
/// transaction lines in chronological order.  In count mode every
/// transaction that changed the package set is kept and decorated
/// with its net delta and the running total.
#[verifier::rlimit(100)]
pub fn history_compact(events: &Vec<Event>, n: usize, count: bool) -> (res: Vec<Summary>)
    ensures
        res.deep_view() == narration(events.deep_view(), n as nat, count),
        res@.len() <= n,
{
    proof {
        lemma_narrator_budget_law(events.deep_view(), n as nat, count);
    }
    let ghost dv = events.deep_view();
    let ghost goal = narration(dv, n as nat, count);
    let len = events.len();
    proof {
        assert(dv.len() == len);
        assert(dv.take(0) =~= Seq::<EventV>::empty());
    }

    // one forward pass: the net installed-package total of the log
    let mut packages: i128 = 0;
    let mut i: usize = 0;
    while i < len
        invariant
            i <= len,
            len == dv.len(),
            dv == events.deep_view(),
            packages == net_installs(dv.take(i as int)),
            -(i as int) <= packages <= i as int,
        decreases len - i,
    {
        proof {
            assert(dv.take(i + 1).drop_last() =~= dv.take(i as int));
            assert(dv.take(i + 1).last() == dv[i as int]);
            assert(events@[i as int]@ == dv[i as int]);
        }
        match &events[i] {
            Event::Installed(_, _, _) => {
                packages = packages + 1;
            },
            Event::Removed(_, _, _) => {
                packages = packages - 1;
            },
            _ => {},
        }
        i += 1;
    }
    proof {
        assert(dv.take(len as int) =~= dv);
    }

    // reverse scan with the four accumulators
    let mut install: Vec<String> = Vec::new();
    let mut remove: Vec<String> = Vec::new();
    let mut upgrade: Vec<String> = Vec::new();
    let mut downgrade: Vec<String> = Vec::new();
    let mut emitted: Vec<Summary> = Vec::new();
    let mut budget: usize = n;
    let mut idx: usize = len;
    proof {
        assert(install.deep_view() =~= Seq::<Seq<char>>::empty());
        assert(remove.deep_view() =~= Seq::<Seq<char>>::empty());
        assert(upgrade.deep_view() =~= Seq::<Seq<char>>::empty());
        assert(downgrade.deep_view() =~= Seq::<Seq<char>>::empty());
        assert(emitted.deep_view().reverse() =~= Seq::<SummaryV>::empty());
        assert(narrate_rec(dv.take(len as int), empty_acc(), n as nat, count, packages as int)
            + emitted.deep_view().reverse() =~= goal);
    }
    while idx > 0 && budget > 0
        invariant
            idx <= len,
            len == dv.len(),
            dv == events.deep_view(),
            install@.len() <= len - idx,
            remove@.len() <= len - idx,
            count ==> packages == net_installs(dv.take(idx as int)) + install.deep_view().len()
                - remove.deep_view().len(),
            !count ==> packages == net_installs(dv),
            -(len as int) <= net_installs(dv) <= len as int,
            narrate_rec(
                dv.take(idx as int),
                AccV {
                    installs: install.deep_view(),
                    removes: remove.deep_view(),
                    upgrades: upgrade.deep_view(),
                    downgrades: downgrade.deep_view(),
                },
                budget as nat,
                count,
                packages as int,
            ) + emitted.deep_view().reverse() == goal,
        decreases idx,
    {
        let ghost b0 = budget;
        let ghost pk0 = packages as int;
        let ghost acc0 = AccV {
            installs: install.deep_view(),
            removes: remove.deep_view(),
            upgrades: upgrade.deep_view(),
            downgrades: downgrade.deep_view(),
        };
        idx -= 1;
        proof {
            assert(dv.take(idx + 1).drop_last() =~= dv.take(idx as int));
            assert(dv.take(idx + 1).last() == dv[idx as int]);
            assert(events@[idx as int]@ == dv[idx as int]);
            lemma_net_installs_bounds(dv.take(idx as int));
            lemma_net_installs_bounds(dv.take(idx + 1));
        }
        match &events[idx] {
            Event::Command(dt, command) => {
                proof {
                    assert(dv[idx as int] == EventV::Command(*dt, command@));
                }
                let ghost spec_sum = command_summary(*dt, command@, acc0, count, pk0);
                let ghost pk2 = if count {
                    pk0 - (acc0.installs.len() - acc0.removes.len())
                } else {
                    pk0
                };
                proof {
                    assert(narrate_rec(dv.take(idx + 1), acc0, b0 as nat, count, pk0)
                        == match spec_sum {
                        Some(sv) => narrate_rec(
                            dv.take(idx as int),
                            empty_acc(),
                            (b0 - 1) as nat,
                            count,
                            pk2,
                        ) + seq![sv],
                        None => narrate_rec(dv.take(idx as int), empty_acc(), b0 as nat, count, pk2),
                    });
                }
                let words = crate::strutil::split_line(command.as_str());
                let mut named: Vec<String> = Vec::new();
                let mut unnamed: Vec<String> = Vec::new();
                partition_named(&words, &install, &mut named, &mut unnamed);
                partition_named(&words, &remove, &mut named, &mut unnamed);
                partition_named(&words, &upgrade, &mut named, &mut unnamed);
                partition_named(&words, &downgrade, &mut named, &mut unnamed);
                proof {
                    let w = split_spaces(command@);
                    lemma_partition_add(acc0.installs, acc0.removes, w);
                    lemma_partition_add(acc0.installs + acc0.removes, acc0.upgrades, w);
                    lemma_partition_add(
                        acc0.installs + acc0.removes + acc0.upgrades,
                        acc0.downgrades,
                        w,
                    );
                    assert(named.deep_view() =~~= named_of(chained(acc0), w));
                    assert(unnamed.deep_view() =~~= unnamed_of(chained(acc0), w));
                }
                let hi = install.len() > 0;
                let hr = remove.len() > 0;
                let hu = upgrade.len() > 0;
                let hd = downgrade.len() > 0;
                let singular_score: u32 = (if hi {
                    1
                } else {
                    0
                }) + (if hr {
                    1
                } else {
                    0
                }) + (if hd {
                    1
                } else {
                    0
                });
                let singular = singular_score < 2;
                proof {
                    assert(singular == is_singular(acc0));
                }
                if count && (hi || hr || hd) {
                    let diff: i128 = install.len() as i128 - remove.len() as i128;
                    let verb = if hi && !hr && !(hu || hd) {
                        CountVerb::Install
                    } else if !hi && hr && !(hu || hd) {
                        CountVerb::Remove
                    } else {
                        CountVerb::Complex
                    };
                    let s = Summary::Count {
                        dt: *dt,
                        diff,
                        after: packages,
                        verb,
                        named,
                        command: command.clone(),
                    };
                    proof {
                        assert(s@ == spec_sum->0);
                    }
                    let ghost em0 = emitted.deep_view();
                    emitted.push(s);
                    budget -= 1;
                    packages = packages - diff;
                    proof {
                        assert(emitted.deep_view() =~~= em0.push(spec_sum->0));
                        assert(em0.push(spec_sum->0).reverse() =~= seq![spec_sum->0]
                            + em0.reverse());
                        assert(packages as int == pk2);
                    }
                } else if singular && !hu && named.len() > 0 {
                    let s = Summary::Singular {
                        dt: *dt,
                        has_install: hi,
                        has_remove: hr,
                        has_downgrade: hd,
                        named,
                        unnamed,
                    };
                    proof {
                        assert(s@ == spec_sum->0);
                    }
                    let ghost em0 = emitted.deep_view();
                    emitted.push(s);
                    budget -= 1;
                    proof {
                        assert(emitted.deep_view() =~~= em0.push(spec_sum->0));
                        assert(em0.push(spec_sum->0).reverse() =~= seq![spec_sum->0]
                            + em0.reverse());
                    }
                } else if !singular {
                    let s = Summary::Complex {
                        dt: *dt,
                        upgrades: upgrade,
                        downgrades: downgrade,
                        installs: install,
                        removes: remove,
                        command: command.clone(),
                    };
                    proof {
                        assert(s@ == spec_sum->0);
                    }
                    let ghost em0 = emitted.deep_view();
                    emitted.push(s);
                    budget -= 1;
                    proof {
                        assert(emitted.deep_view() =~~= em0.push(spec_sum->0));
                        assert(em0.push(spec_sum->0).reverse() =~= seq![spec_sum->0]
                            + em0.reverse());
                    }
                    install = Vec::new();
                    remove = Vec::new();
                    upgrade = Vec::new();
                    downgrade = Vec::new();
                } else {
                    proof {
                        assert(spec_sum is None);
                    }
                }
                install = Vec::new();
                remove = Vec::new();
                upgrade = Vec::new();
                downgrade = Vec::new();
                proof {
                    assert(install.deep_view() =~= Seq::<Seq<char>>::empty());
                    assert(remove.deep_view() =~= Seq::<Seq<char>>::empty());
                    assert(upgrade.deep_view() =~= Seq::<Seq<char>>::empty());
                    assert(downgrade.deep_view() =~= Seq::<Seq<char>>::empty());
                    assert(AccV {
                        installs: install.deep_view(),
                        removes: remove.deep_view(),
                        upgrades: upgrade.deep_view(),
                        downgrades: downgrade.deep_view(),
                    } == empty_acc());
                    assert(narrate_rec(
                        dv.take(idx as int),
                        empty_acc(),
                        budget as nat,
                        count,
                        packages as int,
                    ) + emitted.deep_view().reverse() =~~= goal);
                }
            },
            Event::Installed(_, name, _) => {
                proof {
                    assert(dv[idx as int] matches EventV::Installed(_, nv, _) && nv == name@);
                }
                install.push(name.clone());
                proof {
                    assert(install.deep_view() =~~= acc0.installs.push(name@));
                    assert(AccV {
                        installs: install.deep_view(),
                        removes: remove.deep_view(),
                        upgrades: upgrade.deep_view(),
                        downgrades: downgrade.deep_view(),
                    } == AccV { installs: acc0.installs.push(name@), ..acc0 });
                }
            },
            Event::Removed(_, name, _) => {
                proof {
                    assert(dv[idx as int] matches EventV::Removed(_, nv, _) && nv == name@);
                }
                remove.push(name.clone());
                proof {
                    assert(remove.deep_view() =~~= acc0.removes.push(name@));
                    assert(AccV {
                        installs: install.deep_view(),
                        removes: remove.deep_view(),
                        upgrades: upgrade.deep_view(),
                        downgrades: downgrade.deep_view(),
                    } == AccV { removes: acc0.removes.push(name@), ..acc0 });
                }
            },
            Event::Upgraded(_, name, _) => {
                proof {
                    assert(dv[idx as int] matches EventV::Upgraded(_, nv, _) && nv == name@);
                }
                upgrade.push(name.clone());
                proof {
                    assert(upgrade.deep_view() =~~= acc0.upgrades.push(name@));
                    assert(AccV {
                        installs: install.deep_view(),
                        removes: remove.deep_view(),
                        upgrades: upgrade.deep_view(),
                        downgrades: downgrade.deep_view(),
                    } == AccV { upgrades: acc0.upgrades.push(name@), ..acc0 });
                }
            },
            Event::Downgraded(_, name, _) => {
                proof {
                    assert(dv[idx as int] matches EventV::Downgraded(_, nv, _) && nv == name@);
                }
                downgrade.push(name.clone());
                proof {
                    assert(downgrade.deep_view() =~~= acc0.downgrades.push(name@));
                    assert(AccV {
                        installs: install.deep_view(),
                        removes: remove.deep_view(),
                        upgrades: upgrade.deep_view(),
                        downgrades: downgrade.deep_view(),
                    } == AccV { downgrades: acc0.downgrades.push(name@), ..acc0 });
                }
            },
        }
    }
    proof {
        let accx = AccV {
            installs: install.deep_view(),
            removes: remove.deep_view(),
            upgrades: upgrade.deep_view(),
            downgrades: downgrade.deep_view(),
        };
        let tail = narrate_rec(dv.take(idx as int), accx, budget as nat, count, packages as int);
        if idx == 0 {
            assert(dv.take(0).len() == 0);
        }
        assert(tail.len() == 0);
        assert(tail + emitted.deep_view().reverse() =~= emitted.deep_view().reverse());
        assert(emitted.deep_view().reverse() == goal);
    }

    // restore chronological order
    let ghost em_full = emitted.deep_view();
    let mut res: Vec<Summary> = Vec::new();
    proof {
        assert(res.deep_view() + em_full.reverse() =~~= em_full.reverse());
    }
    while emitted.len() > 0
        invariant
            em_full.reverse() == goal,
            res.deep_view() + emitted.deep_view().reverse() == em_full.reverse(),
        decreases emitted.len(),
    {
        let ghost em_pre = emitted.deep_view();
        let ghost res_pre = res.deep_view();
        let last = emitted.pop();
        if let Some(x) = last {
            proof {
                assert(emitted.deep_view() =~~= em_pre.drop_last());
                assert(x.deep_view() == em_pre.last());
                assert(em_pre.reverse() =~= seq![em_pre.last()] + em_pre.drop_last().reverse());
            }
            res.push(x);
            proof {
                assert(res.deep_view() =~~= res_pre.push(em_pre.last()));
                assert(res_pre.push(em_pre.last()) + emitted.deep_view().reverse() =~~= res_pre
                    + em_pre.reverse());
            }
        }
    }
    proof {
        assert(emitted.deep_view().reverse() =~= Seq::<SummaryV>::empty());
        assert(res.deep_view() + emitted.deep_view().reverse() =~~= res.deep_view());
    }
    res
}

} // verus!
