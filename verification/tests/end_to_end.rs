use paclog::event::{parse, Event};
use paclog::narrator::{history_compact, Summary};
use paclog::reconciler::intentional;

fn scenario_lines() -> Vec<String> {
    vec![
        "[2023-01-01T10:00:00+0000] [PACMAN] Running 'pacman -S foo'".to_string(),
        "[2023-01-01T10:00:01+0000] [ALPM] installed foo (1.0-1)".to_string(),
        "[2023-01-01T10:00:01+0000] [ALPM] installed bar (2.0-1)".to_string(),
    ]
}

#[test]
fn scenario_extracts_three_events() {
    let events = parse(scenario_lines());
    assert_eq!(events.len(), 3);
    assert!(matches!(&events[0], Event::Command(_, c) if c == "pacman -S foo"));
    assert!(matches!(&events[1], Event::Installed(_, n, _) if n == "foo"));
    assert!(matches!(&events[2], Event::Installed(_, n, _) if n == "bar"));
}

#[test]
fn scenario_narrates_one_line_naming_foo() {
    let events = parse(scenario_lines());
    let out = history_compact(&events, 1, false);
    assert_eq!(out.len(), 1);
    match &out[0] {
        Summary::Singular { has_install, named, unnamed, .. } => {
            assert!(*has_install);
            assert_eq!(named, &vec!["foo".to_string()]);
            assert_eq!(unnamed, &vec!["bar".to_string()]);
        },
        _ => panic!("expected a singular transaction"),
    }
}

#[test]
fn scenario_reconciles_the_named_package_as_present() {
    let events = parse(scenario_lines());
    let out = intentional(&events);
    // foo was named by its command and never removed
    assert_eq!(out, vec![("foo".to_string(), true)]);
    // bar came in only as a side effect: no command named it, so the
    // intentional set does not hold it
    assert!(!out.iter().any(|(n, _)| n == "bar"));
}
