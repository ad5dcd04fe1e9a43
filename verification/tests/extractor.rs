use paclog::event::{parse, Event};
use paclog::timestamp::Dt;

fn lines(ls: &[&str]) -> Vec<String> {
    ls.iter().map(|l| l.to_string()).collect()
}

#[test]
fn extracts_a_command_event() {
    let evs = parse(lines(&["[2023-01-01T10:00:00+0000] [PACMAN] Running 'pacman -S foo'"]));
    assert_eq!(evs.len(), 1);
    match &evs[0] {
        Event::Command(dt, cmd) => {
            assert_eq!(*dt, Dt { year: 2023, month: 1, day: 1, hour: 10 });
            assert_eq!(cmd, "pacman -S foo");
        },
        _ => panic!("expected a command event"),
    }
}

#[test]
fn strips_single_quotes_from_commands() {
    let evs = parse(lines(&["[2023-01-01T10:00:00+0000] [PACMAN] Running 'pacman -S 'foo''"]));
    match &evs[0] {
        Event::Command(_, cmd) => assert_eq!(cmd, "pacman -S foo"),
        _ => panic!("expected a command event"),
    }
}

#[test]
fn extracts_package_events_with_versions() {
    let evs = parse(lines(&[
        "[2023-01-01T10:00:01+0000] [ALPM] installed foo (1.0-1)",
        "[2023-01-02T11:00:01+0000] [ALPM] removed bar (2.0-1)",
        "[2023-01-03T12:00:01+0000] [ALPM] upgraded baz (1.0-1 -> 1.1-1)",
        "[2023-01-04T13:00:01+0000] [ALPM] downgraded qux (2.0-1 -> 1.9-1)",
    ]));
    assert_eq!(evs.len(), 4);
    match &evs[0] {
        Event::Installed(dt, name, version) => {
            assert_eq!(dt.day, 1);
            assert_eq!(name, "foo");
            assert_eq!(version, "(1.0-1)");
        },
        _ => panic!("expected an install event"),
    }
    match &evs[2] {
        Event::Upgraded(_, name, version) => {
            assert_eq!(name, "baz");
            assert_eq!(version, "(1.0-1 -> 1.1-1)");
        },
        _ => panic!("expected an upgrade event"),
    }
}

#[test]
fn skips_short_and_malformed_lines() {
    let evs = parse(lines(&[
        "",
        "one two three",
        "[not-a-date] [ALPM] installed foo (1.0-1)",
        "[2023-01-01T10:00:00+0000] [ALPM] transaction started",
        "[2023-01-01T10:00:00+0000] [ALPM-SCRIPTLET] something else entirely",
        "[2023-01-01T10:00:01+0000] [ALPM] installed foo (1.0-1)",
    ]));
    // exactly one line has an event shape; the rest are skipped
    assert_eq!(evs.len(), 1);
    assert!(matches!(&evs[0], Event::Installed(_, _, _)));
}

#[test]
fn keeps_the_log_order() {
    let evs = parse(lines(&[
        "[2023-01-01T10:00:00+0000] [PACMAN] Running 'pacman -S foo'",
        "[2023-01-01T10:00:01+0000] [ALPM] installed foo (1.0-1)",
        "[2023-01-01T10:00:02+0000] [ALPM] removed foo (1.0-1)",
    ]));
    assert_eq!(evs.len(), 3);
    assert!(matches!(&evs[0], Event::Command(_, _)));
    assert!(matches!(&evs[1], Event::Installed(_, _, _)));
    assert!(matches!(&evs[2], Event::Removed(_, _, _)));
}

#[test]
fn empty_version_text_when_nothing_follows() {
    let evs = parse(lines(&["[2023-01-01T10:00:01+0000] [ALPM] installed foo"]));
    assert_eq!(evs.len(), 1);
    match &evs[0] {
        Event::Installed(_, name, version) => {
            assert_eq!(name, "foo");
            assert_eq!(version, "");
        },
        _ => panic!("expected an install event"),
    }
}
