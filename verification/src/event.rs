use vstd::prelude::*;

verus! {

use crate::timestamp::{Dt, valid_dt_token, dt_of_token, parse_dt};
use crate::strutil::{split_spaces, join_spaces, strip_quotes, split_line, join_from,
    remove_quotes};

/// One event of the package-manager log, in the order the log holds
/// them.  A command keeps its full invocation text (single quotes
/// stripped); a package event keeps the bare package name and the raw
/// trailing version text.
pub enum Event {
    Command(Dt, String),
    Installed(Dt, String, String),
    Removed(Dt, String, String),
    Upgraded(Dt, String, String),
    Downgraded(Dt, String, String),
}

/// The mathematical value of an `Event`: the same shape over
/// character sequences.
pub enum EventV {
    Command(Dt, Seq<char>),
    Installed(Dt, Seq<char>, Seq<char>),
    Removed(Dt, Seq<char>, Seq<char>),
    Upgraded(Dt, Seq<char>, Seq<char>),
    Downgraded(Dt, Seq<char>, Seq<char>),
}

impl View for Event {
    type V = EventV;

    open spec fn view(&self) -> EventV {
        match self {
            Event::Command(dt, c) => EventV::Command(*dt, c@),
            Event::Installed(dt, n, v) => EventV::Installed(*dt, n@, v@),
            Event::Removed(dt, n, v) => EventV::Removed(*dt, n@, v@),
            Event::Upgraded(dt, n, v) => EventV::Upgraded(*dt, n@, v@),
            Event::Downgraded(dt, n, v) => EventV::Downgraded(*dt, n@, v@),
        }
    }
}

impl DeepView for Event {
    type V = EventV;

    open spec fn deep_view(&self) -> EventV {
        self.view()
    }
}

impl EventV {
    /// The timestamp of any event.
    pub open spec fn dt(self) -> Dt {
        match self {
            EventV::Command(dt, _) => dt,
            EventV::Installed(dt, _, _) => dt,
            EventV::Removed(dt, _, _) => dt,
            EventV::Upgraded(dt, _, _) => dt,
            EventV::Downgraded(dt, _, _) => dt,
        }
    }

    pub open spec fn is_command(self) -> bool {
        self matches EventV::Command(_, _)
    }

    /// The package name of a package event, or the command text of a
    /// command event.
    pub open spec fn name(self) -> Seq<char> {
        match self {
            EventV::Command(_, c) => c,
            EventV::Installed(_, n, _) => n,
            EventV::Removed(_, n, _) => n,
            EventV::Upgraded(_, n, _) => n,
            EventV::Downgraded(_, n, _) => n,
        }
    }
}

/// The event a single log line stands for, if any.  A line with
/// fewer than four tokens, a malformed timestamp token, or an
/// unrecognised verb yields nothing and is skipped.
pub open spec fn line_event(line: Seq<char>) -> Option<EventV> {
    let ts = split_spaces(line);
    if ts.len() < 4 {
        None
    } else if !valid_dt_token(ts[0]) {
        None
    } else {
        let dt = dt_of_token(ts[0]);
        if ts[1] == "[PACMAN]"@ && ts[2] == "Running"@ {
            Some(EventV::Command(dt, strip_quotes(join_spaces(ts.skip(3)))))
        } else if ts[1] == "[ALPM]"@ && ts[2] == "installed"@ {
            Some(EventV::Installed(dt, ts[3], join_spaces(ts.skip(4))))
        } else if ts[1] == "[ALPM]"@ && ts[2] == "removed"@ {
            Some(EventV::Removed(dt, ts[3], join_spaces(ts.skip(4))))
        } else if ts[1] == "[ALPM]"@ && ts[2] == "upgraded"@ {
            Some(EventV::Upgraded(dt, ts[3], join_spaces(ts.skip(4))))
        } else if ts[1] == "[ALPM]"@ && ts[2] == "downgraded"@ {
            Some(EventV::Downgraded(dt, ts[3], join_spaces(ts.skip(4))))
        } else {
            None
        }
    }
}

pub open spec fn opt_event_seq(o: Option<EventV>) -> Seq<EventV> {
    match o {
        Some(e) => seq![e],
        None => Seq::empty(),
    }
}

/// Whether the events stand in chronological order, as a
/// well-formed log keeps them.
pub open spec fn chronological(events: Seq<EventV>) -> bool {
    forall|i: int, j: int|
        0 <= i <= j < events.len() ==> crate::timestamp::dt_le(
            #[trigger] events[i].dt(),
            #[trigger] events[j].dt(),
        )
}

/// The event sequence a sequence of log lines stands for, in the
/// log's own order: each line contributes its event, or nothing.
pub open spec fn events_of_lines(lines: Seq<Seq<char>>) -> Seq<EventV>
    decreases lines.len(),
{
    if lines.len() == 0 {
        Seq::empty()
    } else {
        events_of_lines(lines.drop_last()) + opt_event_seq(line_event(lines.last()))
    }
}

/// Extractor totality: a line never yields more than one event, and a
/// line with fewer than four tokens or a malformed timestamp token
/// yields none.
pub proof fn lemma_extractor_totality(line: Seq<char>)
    ensures
        opt_event_seq(line_event(line)).len() <= 1,
        split_spaces(line).len() < 4 ==> line_event(line) is None,
        split_spaces(line).len() >= 1 && !valid_dt_token(split_spaces(line)[0])
            ==> line_event(line) is None,
{
}

/// The extracted events are never more numerous than the lines.
pub proof fn lemma_events_of_lines_len(lines: Seq<Seq<char>>)
    ensures
        events_of_lines(lines).len() <= lines.len(),
    decreases lines.len(),
{
    if lines.len() > 0 {
        lemma_events_of_lines_len(lines.drop_last());
    }
}

/// A copy of an event with the same value.
pub fn clone_event(e: &Event) -> (r: Event)
    ensures
        r@ == e@,
{
    match e {
        Event::Command(dt, c) => Event::Command(*dt, c.clone()),
        Event::Installed(dt, n, v) => Event::Installed(*dt, n.clone(), v.clone()),
        Event::Removed(dt, n, v) => Event::Removed(*dt, n.clone(), v.clone()),
        Event::Upgraded(dt, n, v) => Event::Upgraded(*dt, n.clone(), v.clone()),
        Event::Downgraded(dt, n, v) => Event::Downgraded(*dt, n.clone(), v.clone()),
    }
}

/// Turns raw log lines into the ordered event sequence.  Lines that
/// match no event shape are skipped; the order of the log is kept.
pub fn parse(lines: Vec<String>) -> (res: Vec<Event>)
    ensures
        res.deep_view() == events_of_lines(lines.deep_view()),
{
    let ghost dl = lines.deep_view();
    let mut res: Vec<Event> = Vec::new();
    let n = lines.len();
    proof {
        assert(dl.len() == n);
        assert(dl.take(0) =~= Seq::<Seq<char>>::empty());
    }
    let lit_pacman = String::from_str("[PACMAN]");
    let lit_running = String::from_str("Running");
    let lit_alpm = String::from_str("[ALPM]");
    let lit_installed = String::from_str("installed");
    let lit_removed = String::from_str("removed");
    let lit_upgraded = String::from_str("upgraded");
    let lit_downgraded = String::from_str("downgraded");
    let mut i: usize = 0;
    while i < n
        invariant
            i <= n,
            n == dl.len(),
            dl == lines.deep_view(),
            res.deep_view() == events_of_lines(dl.take(i as int)),
            lit_pacman@ == "[PACMAN]"@,
            lit_running@ == "Running"@,
            lit_alpm@ == "[ALPM]"@,
            lit_installed@ == "installed"@,
            lit_removed@ == "removed"@,
            lit_upgraded@ == "upgraded"@,
            lit_downgraded@ == "downgraded"@,
        decreases n - i,
    {
        proof {
            assert(dl.take(i + 1).drop_last() =~= dl.take(i as int));
            assert(dl.take(i + 1).last() == dl[i as int]);
            assert(lines@[i as int]@ == dl[i as int]);
        }
        let ghost line = dl[i as int];
        let ghost pre = res.deep_view();
        let tokens = split_line(lines[i].as_str());
        let ghost ts = split_spaces(line);
        proof {
            assert(tokens.deep_view() == ts);
            assert(tokens@.len() == ts.len());
        }
        if tokens.len() >= 4 {
            if let Some(dt) = parse_dt(tokens[0].as_str()) {
                proof {
                    assert(tokens.deep_view()[0] == ts[0]);
                    assert(tokens@[0]@ == ts[0]);
                    assert(tokens@[1]@ == ts[1]);
                    assert(tokens@[2]@ == ts[2]);
                    assert(tokens@[3]@ == ts[3]);
                }
                if tokens[1].eq(&lit_pacman) && tokens[2].eq(&lit_running) {
                    let joined = join_from(&tokens, 3);
                    let cmd = remove_quotes(joined.as_str());
                    let ev = Event::Command(dt, cmd);
                    proof {
                        assert(ev@ == line_event(line)->0);
                    }
                    res.push(ev);
                } else if tokens[1].eq(&lit_alpm) && tokens[2].eq(&lit_installed) {
                    let name = tokens[3].clone();
                    let version = join_from(&tokens, 4);
                    let ev = Event::Installed(dt, name, version);
                    proof {
                        assert(ev@ == line_event(line)->0);
                    }
                    res.push(ev);
                } else if tokens[1].eq(&lit_alpm) && tokens[2].eq(&lit_removed) {
                    let name = tokens[3].clone();
                    let version = join_from(&tokens, 4);
                    let ev = Event::Removed(dt, name, version);
                    proof {
                        assert(ev@ == line_event(line)->0);
                    }
                    res.push(ev);
                } else if tokens[1].eq(&lit_alpm) && tokens[2].eq(&lit_upgraded) {
                    let name = tokens[3].clone();
                    let version = join_from(&tokens, 4);
                    let ev = Event::Upgraded(dt, name, version);
                    proof {
                        assert(ev@ == line_event(line)->0);
                    }
                    res.push(ev);
                } else if tokens[1].eq(&lit_alpm) && tokens[2].eq(&lit_downgraded) {
                    let name = tokens[3].clone();
                    let version = join_from(&tokens, 4);
                    let ev = Event::Downgraded(dt, name, version);
                    proof {
                        assert(ev@ == line_event(line)->0);
                    }
                    res.push(ev);
                } else {
                    proof {
                        assert(line_event(line) is None);
                    }
                }
            } else {
                proof {
                    assert(!valid_dt_token(ts[0]));
                    assert(line_event(line) is None);
                }
            }
        } else {
            proof {
                assert(ts.len() < 4);
                assert(line_event(line) is None);
            }
        }
        proof {
            assert(res.deep_view() =~~= pre + opt_event_seq(line_event(line)));
            assert(res.deep_view() == events_of_lines(dl.take(i + 1)));
        }
        i += 1;
    }
    proof {
        assert(dl.take(n as int) =~= dl);
    }
    res
}

} // verus!
