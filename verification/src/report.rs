use vstd::prelude::*;

verus! {

use crate::timestamp::Dt;
use crate::event::{Event, EventV};
use crate::freq::FreqMap;

/// The five event shapes, as a selector for the counting reports.
#[derive(Clone, Copy, PartialEq, Eq, Structural, Debug)]
pub enum EventKind {
    Command,
    Installed,
    Removed,
    Upgraded,
    Downgraded,
}

/// The calendar units a timestamp can be bucketed by.
#[derive(Clone, Copy, PartialEq, Eq, Structural, Debug)]
pub enum TimeUnit {
    Year,
    Month,
    Day,
    Hour,
}

pub open spec fn kind_of(e: EventV) -> EventKind {
    match e {
        EventV::Command(_, _) => EventKind::Command,
        EventV::Installed(_, _, _) => EventKind::Installed,
        EventV::Removed(_, _, _) => EventKind::Removed,
        EventV::Upgraded(_, _, _) => EventKind::Upgraded,
        EventV::Downgraded(_, _, _) => EventKind::Downgraded,
    }
}

/// How many events of the given kind the log holds.
pub open spec fn count_kind(events: Seq<EventV>, kind: EventKind) -> int
    decreases events.len(),
{
    if events.len() == 0 {
        0
    } else {
        count_kind(events.drop_last(), kind) + if kind_of(events.last()) == kind {
            1int
        } else {
            0int
        }
    }
}

/// How many events of the given kind carry the given name (the
/// command text for commands, the package name otherwise).
pub open spec fn count_name(events: Seq<EventV>, kind: EventKind, name: Seq<char>) -> int
    decreases events.len(),
{
    if events.len() == 0 {
        0
    } else {
        count_name(events.drop_last(), kind, name) + if kind_of(events.last()) == kind
            && events.last().name() == name {
            1int
        } else {
            0int
        }
    }
}

/// The calendar field of a timestamp selected by the unit.
pub open spec fn unit_of(dt: Dt, unit: TimeUnit) -> u16 {
    match unit {
        TimeUnit::Year => dt.year,
        TimeUnit::Month => dt.month as u16,
        TimeUnit::Day => dt.day as u16,
        TimeUnit::Hour => dt.hour as u16,
    }
}

/// How many events of the given kind fall into the calendar bucket
/// `v` of the given unit.
pub open spec fn count_bucket(events: Seq<EventV>, kind: EventKind, unit: TimeUnit, v: u16) -> int
    decreases events.len(),
{
    if events.len() == 0 {
        0
    } else {
        count_bucket(events.drop_last(), kind, unit, v) + if kind_of(events.last()) == kind
            && unit_of(events.last().dt(), unit) == v {
            1int
        } else {
            0int
        }
    }
}

/// The net installed-package total that the narrator seeds its
/// count mode with is the same quantity the summary reports.
pub proof fn lemma_net_installs_counts(events: Seq<EventV>)
    ensures
        crate::narrator::net_installs(events) == count_kind(events, EventKind::Installed)
            - count_kind(events, EventKind::Removed),
    decreases events.len(),
{
    if events.len() > 0 {
        lemma_net_installs_counts(events.drop_last());
    }
}

/// The update counter of the summary: counts maximal runs of
/// upgrade events not interrupted by a command.  Returns the count
/// and whether the scan stands inside such a run.
pub open spec fn updates_rec(events: Seq<EventV>) -> (int, bool)
    decreases events.len(),
{
    if events.len() == 0 {
        (0, false)
    } else {
        let pre = updates_rec(events.drop_last());
        match events.last() {
            EventV::Command(_, _) => (pre.0, false),
            EventV::Upgraded(_, _, _) => if !pre.1 {
                (pre.0 + 1, true)
            } else {
                pre
            },
            _ => pre,
        }
    }
}

/// The whole-log statistics of the summary report.
pub struct SummaryStats {
    pub events: usize,
    pub packages: i128,
    pub updates: usize,
    pub installs: usize,
    pub removes: usize,
    pub upgrades: usize,
    pub downgrades: usize,
    pub first_command: Option<(Dt, String)>,
}

/// Counts the log's events by kind, the net installed-package total,
/// the number of update runs, and the first command if the log opens
/// with one.
pub fn summary(events: &Vec<Event>) -> (r: SummaryStats)
    ensures
        r.events == events.deep_view().len(),
        r.installs as int == count_kind(events.deep_view(), EventKind::Installed),
        r.removes as int == count_kind(events.deep_view(), EventKind::Removed),
        r.upgrades as int == count_kind(events.deep_view(), EventKind::Upgraded),
        r.downgrades as int == count_kind(events.deep_view(), EventKind::Downgraded),
        r.packages as int == count_kind(events.deep_view(), EventKind::Installed) - count_kind(
            events.deep_view(),
            EventKind::Removed,
        ),
        r.updates as int == updates_rec(events.deep_view()).0,
        (r.first_command is Some) == (events.deep_view().len() > 0 && events.deep_view()[0]
            is Command),
        r.first_command is Some ==> (r.first_command->0).0 == events.deep_view()[0].dt()
            && ((r.first_command->0).1)@ == events.deep_view()[0].name(),
{
    let ghost dv = events.deep_view();
    let len = events.len();
    proof {
        assert(dv.len() == len);
        assert(dv.take(0) =~= Seq::<EventV>::empty());
    }
    let first_command: Option<(Dt, String)> = if len > 0 {
        proof {
            assert(events@[0]@ == dv[0]);
        }
        match &events[0] {
            Event::Command(dt, c) => Some((*dt, c.clone())),
            _ => None,
        }
    } else {
        None
    };
    let mut installs: usize = 0;
    let mut removes: usize = 0;
    let mut upgrades: usize = 0;
    let mut downgrades: usize = 0;
    let mut updates: usize = 0;
    let mut in_run = false;
    let mut i: usize = 0;
    while i < len
        invariant
            i <= len,
            len == dv.len(),
            dv == events.deep_view(),
            installs as int == count_kind(dv.take(i as int), EventKind::Installed),
            removes as int == count_kind(dv.take(i as int), EventKind::Removed),
            upgrades as int == count_kind(dv.take(i as int), EventKind::Upgraded),
            downgrades as int == count_kind(dv.take(i as int), EventKind::Downgraded),
            installs <= i && removes <= i && upgrades <= i && downgrades <= i && updates <= i,
            (updates as int, in_run) == updates_rec(dv.take(i as int)),
        decreases len - i,
    {
        proof {
            assert(dv.take(i + 1).drop_last() =~= dv.take(i as int));
            assert(dv.take(i + 1).last() == dv[i as int]);
            assert(events@[i as int]@ == dv[i as int]);
        }
        match &events[i] {
            Event::Command(_, _) => {
                in_run = false;
            },
            Event::Installed(_, _, _) => {
                installs = installs + 1;
            },
            Event::Removed(_, _, _) => {
                removes = removes + 1;
            },
            Event::Upgraded(_, _, _) => {
                if !in_run {
                    in_run = true;
                    updates = updates + 1;
                }
                upgrades = upgrades + 1;
            },
            Event::Downgraded(_, _, _) => {
                downgrades = downgrades + 1;
            },
        }
        i += 1;
    }
    proof {
        assert(dv.take(len as int) =~= dv);
    }
    let packages: i128 = installs as i128 - removes as i128;
    SummaryStats {
        events: len,
        packages,
        updates,
        installs,
        removes,
        upgrades,
        downgrades,
        first_command,
    }
}

/// The name an event contributes to the top-N report of the given
/// kind, if it is of that kind.
fn event_name_for_kind<'a>(e: &'a Event, kind: EventKind) -> (r: Option<&'a String>)
    ensures
        (r is Some) == (kind_of(e@) == kind),
        r is Some ==> r->0@ == e@.name(),
{
    match e {
        Event::Command(_, c) => if kind == EventKind::Command {
            Some(c)
        } else {
            None
        },
        Event::Installed(_, n, _) => if kind == EventKind::Installed {
            Some(n)
        } else {
            None
        },
        Event::Removed(_, n, _) => if kind == EventKind::Removed {
            Some(n)
        } else {
            None
        },
        Event::Upgraded(_, n, _) => if kind == EventKind::Upgraded {
            Some(n)
        } else {
            None
        },
        Event::Downgraded(_, n, _) => if kind == EventKind::Downgraded {
            Some(n)
        } else {
            None
        },
    }
}

/// The frequency table behind every "most run" / "most installed"
/// report: how often each command line was run, or each package
/// installed, removed, upgraded or downgraded.
pub fn frequency_of(events: &Vec<Event>, kind: EventKind) -> (r: FreqMap<String>)
    ensures
        r.wf(),
        r.spec_total() == count_kind(events.deep_view(), kind),
        forall|p: Seq<char>|
            #[trigger] r@.contains_key(p) <==> count_name(events.deep_view(), kind, p) > 0,
        forall|p: Seq<char>|
            #[trigger] r@.contains_key(p) ==> r@[p] == count_name(events.deep_view(), kind, p),
{
    let ghost dv = events.deep_view();
    let len = events.len();
    proof {
        assert(dv.len() == len);
        assert(dv.take(0) =~= Seq::<EventV>::empty());
    }
    let mut map: FreqMap<String> = FreqMap::new();
    let mut i: usize = 0;
    while i < len
        invariant
            i <= len,
            len == dv.len(),
            dv == events.deep_view(),
            map.wf(),
            map.spec_total() == count_kind(dv.take(i as int), kind),
            map.spec_total() <= i,
            forall|p: Seq<char>|
                #[trigger] map@.contains_key(p) <==> count_name(dv.take(i as int), kind, p) > 0,
            forall|p: Seq<char>|
                #[trigger] map@.contains_key(p) ==> map@[p] == count_name(dv.take(i as int), kind, p),
        decreases len - i,
    {
        proof {
            assert(dv.take(i + 1).drop_last() =~= dv.take(i as int));
            assert(dv.take(i + 1).last() == dv[i as int]);
            assert(events@[i as int]@ == dv[i as int]);
        }
        let ghost m0 = map@;
        match event_name_for_kind(&events[i], kind) {
            Some(nm) => {
                let owned = nm.clone();
                map.inc(owned);
                proof {
                    let nv = dv[i as int].name();
                    assert(map@ == m0.insert(
                        nv,
                        if m0.contains_key(nv) {
                            (m0[nv] + 1) as nat
                        } else {
                            1nat
                        },
                    ));
                    assert forall|p: Seq<char>| true implies (#[trigger] map@.contains_key(p) == (
                    count_name(dv.take(i + 1), kind, p) > 0)) by {
                        if p != nv {
                            assert(count_name(dv.take(i + 1), kind, p) == count_name(
                                dv.take(i as int),
                                kind,
                                p,
                            ));
                        } else {
                            assert(count_name(dv.take(i + 1), kind, p) == count_name(
                                dv.take(i as int),
                                kind,
                                p,
                            ) + 1);
                            assert(count_name(dv.take(i as int), kind, p) >= 0) by {
                                lemma_count_name_nonneg(dv.take(i as int), kind, p);
                            }
                        }
                    }
                    assert forall|p: Seq<char>| #[trigger]
                        map@.contains_key(p) implies map@[p] == count_name(
                        dv.take(i + 1),
                        kind,
                        p,
                    ) by {
                        if p != nv {
                            assert(count_name(dv.take(i + 1), kind, p) == count_name(
                                dv.take(i as int),
                                kind,
                                p,
                            ));
                        }
                    }
                }
            },
            None => {
                proof {
                    assert forall|p: Seq<char>| true implies count_name(dv.take(i + 1), kind, p)
                        == count_name(dv.take(i as int), kind, p) by {}
                }
            },
        }
        i += 1;
    }
    proof {
        assert(dv.take(len as int) =~= dv);
    }
    map
}

pub proof fn lemma_count_name_nonneg(events: Seq<EventV>, kind: EventKind, p: Seq<char>)
    ensures
        count_name(events, kind, p) >= 0,
    decreases events.len(),
{
    if events.len() > 0 {
        lemma_count_name_nonneg(events.drop_last(), kind, p);
    }
}

pub proof fn lemma_count_bucket_nonneg(events: Seq<EventV>, kind: EventKind, unit: TimeUnit, v: u16)
    ensures
        count_bucket(events, kind, unit, v) >= 0,
    decreases events.len(),
{
    if events.len() > 0 {
        lemma_count_bucket_nonneg(events.drop_last(), kind, unit, v);
    }
}

/// The calendar histogram behind the time report: how many events of
/// the given kind fall into each year, month, day or hour bucket.
pub fn time_buckets(events: &Vec<Event>, kind: EventKind, unit: TimeUnit) -> (r: FreqMap<u16>)
    ensures
        r.wf(),
        r.spec_total() == count_kind(events.deep_view(), kind),
        forall|v: u16|
            #[trigger] r@.contains_key(v) <==> count_bucket(events.deep_view(), kind, unit, v) > 0,
        forall|v: u16|
            #[trigger] r@.contains_key(v) ==> r@[v] == count_bucket(
                events.deep_view(),
                kind,
                unit,
                v,
            ),
{
    let ghost dv = events.deep_view();
    let len = events.len();
    proof {
        assert(dv.len() == len);
        assert(dv.take(0) =~= Seq::<EventV>::empty());
    }
    let mut map: FreqMap<u16> = FreqMap::new();
    let mut i: usize = 0;
    while i < len
        invariant
            i <= len,
            len == dv.len(),
            dv == events.deep_view(),
            map.wf(),
            map.spec_total() == count_kind(dv.take(i as int), kind),
            map.spec_total() <= i,
            forall|v: u16|
                #[trigger] map@.contains_key(v) <==> count_bucket(dv.take(i as int), kind, unit, v)
                    > 0,
            forall|v: u16|
                #[trigger] map@.contains_key(v) ==> map@[v] == count_bucket(
                    dv.take(i as int),
                    kind,
                    unit,
                    v,
                ),
        decreases len - i,
    {
        proof {
            assert(dv.take(i + 1).drop_last() =~= dv.take(i as int));
            assert(dv.take(i + 1).last() == dv[i as int]);
            assert(events@[i as int]@ == dv[i as int]);
        }
        let ghost m0 = map@;
        let matched = event_name_for_kind(&events[i], kind).is_some();
        if matched {
            let dt = match &events[i] {
                Event::Command(dt, _) => *dt,
                Event::Installed(dt, _, _) => *dt,
                Event::Removed(dt, _, _) => *dt,
                Event::Upgraded(dt, _, _) => *dt,
                Event::Downgraded(dt, _, _) => *dt,
            };
            proof {
                assert(dt == dv[i as int].dt());
            }
            let key: u16 = match unit {
                TimeUnit::Year => dt.year,
                TimeUnit::Month => dt.month as u16,
                TimeUnit::Day => dt.day as u16,
                TimeUnit::Hour => dt.hour as u16,
            };
            proof {
                assert(key == unit_of(dv[i as int].dt(), unit));
            }
            map.inc(key);
            proof {
                let nv = unit_of(dv[i as int].dt(), unit);
                assert forall|v: u16| true implies (#[trigger] map@.contains_key(v) == (
                count_bucket(dv.take(i + 1), kind, unit, v) > 0)) by {
                    if v != nv {
                        assert(count_bucket(dv.take(i + 1), kind, unit, v) == count_bucket(
                            dv.take(i as int),
                            kind,
                            unit,
                            v,
                        ));
                    } else {
                        lemma_count_bucket_nonneg(dv.take(i as int), kind, unit, v);
                    }
                }
                assert forall|v: u16| #[trigger] map@.contains_key(v) implies map@[v]
                    == count_bucket(dv.take(i + 1), kind, unit, v) by {
                    if v != nv {
                        assert(count_bucket(dv.take(i + 1), kind, unit, v) == count_bucket(
                            dv.take(i as int),
                            kind,
                            unit,
                            v,
                        ));
                    }
                }
            }
        } else {
            proof {
                assert forall|v: u16| true implies count_bucket(dv.take(i + 1), kind, unit, v)
                    == count_bucket(dv.take(i as int), kind, unit, v) by {}
            }
        }
        i += 1;
    }
    proof {
        assert(dv.take(len as int) =~= dv);
    }
    map
}

/// One line of the single-package history: what happened to the
/// package, when, at which version text, and the command text that
/// was last run before it.
pub struct PkgRecord {
    pub kind: EventKind,
    pub dt: Dt,
    pub version: String,
    pub command: String,
}

/// The mathematical value of a `PkgRecord`.
pub struct PkgRecordV {
    pub kind: EventKind,
    pub dt: Dt,
    pub version: Seq<char>,
    pub command: Seq<char>,
}

impl View for PkgRecord {
    type V = PkgRecordV;

    open spec fn view(&self) -> PkgRecordV {
        PkgRecordV { kind: self.kind, dt: self.dt, version: self.version@, command: self.command@ }
    }
}

impl DeepView for PkgRecord {
    type V = PkgRecordV;

    open spec fn deep_view(&self) -> PkgRecordV {
        self.view()
    }
}

/// The command text most recently run at the end of the log, or
/// `init` if no command was run.
pub open spec fn last_command_of(events: Seq<EventV>, init: Seq<char>) -> Seq<char>
    decreases events.len(),
{
    if events.len() == 0 {
        init
    } else {
        match events.last() {
            EventV::Command(_, c) => c,
            _ => last_command_of(events.drop_last(), init),
        }
    }
}

/// The history lines of one package: every package event carrying
/// its name, each with the command text last run before it.
pub open spec fn pkg_history(events: Seq<EventV>, target: Seq<char>) -> Seq<PkgRecordV>
    decreases events.len(),
{
    if events.len() == 0 {
        Seq::empty()
    } else {
        let pre = pkg_history(events.drop_last(), target);
        let cmd = last_command_of(events.drop_last(), Seq::empty());
        match events.last() {
            EventV::Command(_, _) => pre,
            EventV::Installed(dt, n, v) => if n == target {
                pre.push(PkgRecordV { kind: EventKind::Installed, dt, version: v, command: cmd })
            } else {
                pre
            },
            EventV::Removed(dt, n, v) => if n == target {
                pre.push(PkgRecordV { kind: EventKind::Removed, dt, version: v, command: cmd })
            } else {
                pre
            },
            EventV::Upgraded(dt, n, v) => if n == target {
                pre.push(PkgRecordV { kind: EventKind::Upgraded, dt, version: v, command: cmd })
            } else {
                pre
            },
            EventV::Downgraded(dt, n, v) => if n == target {
                pre.push(PkgRecordV { kind: EventKind::Downgraded, dt, version: v, command: cmd })
            } else {
                pre
            },
        }
    }
}

/// The history of one package: walks the log in order, remembers the
/// last command run, and reports every install, remove, upgrade or
/// downgrade of the package together with that command.
pub fn package_history(events: &Vec<Event>, target: &String) -> (res: Vec<PkgRecord>)
    ensures
        res.deep_view() == pkg_history(events.deep_view(), target@),
{
    let ghost dv = events.deep_view();
    let len = events.len();
    proof {
        assert(dv.len() == len);
        assert(dv.take(0) =~= Seq::<EventV>::empty());
    }
    let mut res: Vec<PkgRecord> = Vec::new();
    let mut last_command = String::new();
    let mut i: usize = 0;
    while i < len
        invariant
            i <= len,
            len == dv.len(),
            dv == events.deep_view(),
            last_command@ == last_command_of(dv.take(i as int), Seq::<char>::empty()),
            res.deep_view() == pkg_history(dv.take(i as int), target@),
        decreases len - i,
    {
        proof {
            assert(dv.take(i + 1).drop_last() =~= dv.take(i as int));
            assert(dv.take(i + 1).last() == dv[i as int]);
            assert(events@[i as int]@ == dv[i as int]);
        }
        let ghost r0 = res.deep_view();
        match &events[i] {
            Event::Command(_, c) => {
                last_command = c.clone();
            },
            Event::Installed(dt, n, v) => {
                if n.eq(target) {
                    let rec = PkgRecord {
                        kind: EventKind::Installed,
                        dt: *dt,
                        version: v.clone(),
                        command: last_command.clone(),
                    };
                    res.push(rec);
                    proof {
                        assert(res.deep_view() =~~= r0.push(rec@));
                    }
                }
            },
            Event::Removed(dt, n, v) => {
                if n.eq(target) {
                    let rec = PkgRecord {
                        kind: EventKind::Removed,
                        dt: *dt,
                        version: v.clone(),
                        command: last_command.clone(),
                    };
                    res.push(rec);
                    proof {
                        assert(res.deep_view() =~~= r0.push(rec@));
                    }
                }
            },
            Event::Upgraded(dt, n, v) => {
                if n.eq(target) {
                    let rec = PkgRecord {
                        kind: EventKind::Upgraded,
                        dt: *dt,
                        version: v.clone(),
                        command: last_command.clone(),
                    };
                    res.push(rec);
                    proof {
                        assert(res.deep_view() =~~= r0.push(rec@));
                    }
                }
            },
            Event::Downgraded(dt, n, v) => {
                if n.eq(target) {
                    let rec = PkgRecord {
                        kind: EventKind::Downgraded,
                        dt: *dt,
                        version: v.clone(),
                        command: last_command.clone(),
                    };
                    res.push(rec);
                    proof {
                        assert(res.deep_view() =~~= r0.push(rec@));
                    }
                }
            },
        }
        i += 1;
    }
    proof {
        assert(dv.take(len as int) =~= dv);
    }
    res
}


/// The count a pair list gives to key `k`, zero where the key is
/// absent.
pub open spec fn count_of(s: Seq<(u16, usize)>, k: u16) -> int
    decreases s.len(),
{
    if s.len() == 0 {
        0
    } else if s.last().0 == k {
        s.last().1 as int
    } else {
        count_of(s.drop_last(), k)
    }
}

proof fn lemma_count_of_found(s: Seq<(u16, usize)>, j: int, k: u16)
    requires
        0 <= j < s.len(),
        s[j].0 == k,
        forall|a: int, b: int| 0 <= a < b < s.len() ==> (#[trigger] s[a]).0 != (#[trigger] s[b]).0,
    ensures
        count_of(s, k) == s[j].1,
    decreases s.len(),
{
    if j == s.len() - 1 {
    } else {
        assert(s.last().0 != k) by {
            assert(s[j].0 != s[s.len() - 1].0);
        }
        lemma_count_of_found(s.drop_last(), j, k);
        assert(s.drop_last()[j] == s[j]);
    }
}

proof fn lemma_count_of_absent(s: Seq<(u16, usize)>, k: u16)
    requires
        forall|j: int| 0 <= j < s.len() ==> (#[trigger] s[j]).0 != k,
    ensures
        count_of(s, k) == 0,
    decreases s.len(),
{
    if s.len() > 0 {
        assert(forall|j: int|
            0 <= j < s.drop_last().len() ==> #[trigger] s.drop_last()[j] == s[j]);
        lemma_count_of_absent(s.drop_last(), k);
    }
}

/// Fills the gaps of a bucket range: given the buckets in strictly
/// ascending key order, returns one pair for every key from the
/// first to the last, a zero count standing in for each missing
/// bucket, so that a chart has no missing columns.
pub fn fill_gaps(entries: &Vec<(u16, usize)>) -> (res: Vec<(u16, usize)>)
    requires
        forall|a: int, b: int|
            0 <= a < b < entries@.len() ==> (#[trigger] entries@[a]).0 < (#[trigger] entries@[b]).0,
    ensures
        entries@.len() == 0 ==> res@.len() == 0,
        entries@.len() > 0 ==> res@.len() == entries@[entries@.len() - 1].0 - entries@[0].0 + 1,
        forall|i: int|
            0 <= i < res@.len() ==> (#[trigger] res@[i]).0 == entries@[0].0 + i && res@[i].1 as int
                == count_of(entries@, res@[i].0),
{
    let ghost ev = entries@;
    let mut res: Vec<(u16, usize)> = Vec::new();
    let n = entries.len();
    if n == 0 {
        return res;
    }
    let lo = entries[0].0;
    let hi = entries[n - 1].0;
    proof {
        assert(lo <= hi) by {
            if n > 1 {
                assert(ev[0].0 < ev[n - 1].0);
            }
        }
    }
    let mut kk: usize = lo as usize;
    let mut idx: usize = 0;
    while kk <= hi as usize
        invariant
            n == ev.len(),
            ev == entries@,
            n > 0,
            lo == ev[0].0,
            hi == ev[n - 1].0,
            lo <= hi,
            lo as int <= kk as int <= hi + 1,
            idx <= n,
            forall|a: int, b: int| 0 <= a < b < n ==> (#[trigger] ev[a]).0 < (#[trigger] ev[b]).0,
            forall|j: int| 0 <= j < idx ==> (#[trigger] ev[j]).0 < kk,
            forall|j: int| idx <= j < n ==> (#[trigger] ev[j]).0 >= kk,
            res@.len() == kk - lo,
            forall|i: int|
                0 <= i < res@.len() ==> (#[trigger] res@[i]).0 == lo + i && res@[i].1 as int
                    == count_of(ev, res@[i].0),
        decreases hi + 1 - kk,
    {
        let k = kk as u16;
        if idx < n && entries[idx].0 == k {
            let c = entries[idx].1;
            res.push((k, c));
            idx += 1;
            proof {
                lemma_count_of_found(ev, idx - 1, k);
                assert(forall|j: int| idx <= j < n ==> (#[trigger] ev[j]).0 > ev[idx - 1].0);
            }
        } else {
            res.push((k, 0));
            proof {
                assert forall|j: int| 0 <= j < n implies (#[trigger] ev[j]).0 != k by {
                    if j >= idx {
                        if idx < n {
                            if j > idx {
                                assert(ev[idx as int].0 < ev[j].0);
                            }
                        }
                    }
                }
                lemma_count_of_absent(ev, k);
            }
        }
        kk += 1;
    }
    proof {
        assert(kk == hi + 1);
    }
    res
}

/// The height of one chart column: the number of rows for a bucket
/// of `count` events when the fullest bucket has `max` and the chart
/// is `rows` rows tall, `rows * count / max` rounded to the nearest
/// whole number.
pub fn bar_height(count: u32, max: u32, rows: u32) -> (r: u32)
    requires
        max > 0,
        count <= max,
    ensures
        r as int == (2 * (rows as int) * (count as int) + max as int) / (2 * (max as int)),
        r <= rows,
{
    proof {
        assert((rows as int) * (count as int) <= 0xFFFF_FFFF * 0xFFFF_FFFF) by (nonlinear_arith)
            requires
                rows as int <= 0xFFFF_FFFF,
                count as int <= 0xFFFF_FFFF,
                rows as int >= 0,
                count as int >= 0,
        {
        }
    }
    let prod: u128 = (rows as u128) * (count as u128);
    let num: u128 = 2u128 * prod + (max as u128);
    let den: u128 = 2u128 * (max as u128);
    let q: u128 = num / den;
    proof {
        let ri = rows as int;
        let ci = count as int;
        let mi = max as int;
        let qi = (2 * ri * ci + mi) / (2 * mi);
        assert(2 * ri * ci == 2 * (ri * ci)) by (nonlinear_arith) {}
        assert(q == qi);
        assert(qi <= ri) by (nonlinear_arith)
            requires
                mi > 0,
                ci <= mi,
                ri >= 0,
                ci >= 0,
                qi == (2 * ri * ci + mi) / (2 * mi),
        {
        }
        assert(qi >= 0) by (nonlinear_arith)
            requires
                mi > 0,
                ci >= 0,
                ri >= 0,
                qi == (2 * ri * ci + mi) / (2 * mi),
        {
        }
    }
    q as u32
}

} // verus!
