use paclog::event::Event;
use paclog::narrator::{history_compact, CountVerb, Summary};
use paclog::timestamp::Dt;

fn dt(day: u8, hour: u8) -> Dt {
    Dt { year: 2023, month: 1, day, hour }
}

fn cmd(day: u8, hour: u8, text: &str) -> Event {
    Event::Command(dt(day, hour), text.to_string())
}

fn inst(day: u8, hour: u8, name: &str) -> Event {
    Event::Installed(dt(day, hour), name.to_string(), "(1.0-1)".to_string())
}

fn rem(day: u8, hour: u8, name: &str) -> Event {
    Event::Removed(dt(day, hour), name.to_string(), "(1.0-1)".to_string())
}

fn upg(day: u8, hour: u8, name: &str) -> Event {
    Event::Upgraded(dt(day, hour), name.to_string(), "(1.0-1 -> 1.1-1)".to_string())
}

#[test]
fn partitions_named_and_unnamed_packages() {
    let events = vec![
        cmd(1, 10, "pacman -S vim"),
        inst(1, 10, "vim"),
        inst(1, 10, "vim-runtime"),
    ];
    let out = history_compact(&events, 10, false);
    assert_eq!(out.len(), 1);
    match &out[0] {
        Summary::Singular { has_install, has_remove, has_downgrade, named, unnamed, .. } => {
            assert!(*has_install);
            assert!(!*has_remove);
            assert!(!*has_downgrade);
            assert_eq!(named, &vec!["vim".to_string()]);
            assert_eq!(unnamed, &vec!["vim-runtime".to_string()]);
        },
        _ => panic!("expected a singular transaction"),
    }
}

#[test]
fn emits_at_most_n_lines() {
    let mut events = Vec::new();
    for d in 1..=9u8 {
        events.push(cmd(d, 10, "pacman -S tool"));
        events.push(inst(d, 10, "tool"));
    }
    for n in 0..5usize {
        let out = history_compact(&events, n, false);
        assert!(out.len() <= n);
    }
    assert_eq!(history_compact(&events, 0, false).len(), 0);
    assert_eq!(history_compact(&events, 3, false).len(), 3);
}

#[test]
fn output_is_chronological() {
    let mut events = Vec::new();
    for d in 1..=5u8 {
        events.push(cmd(d, 10, "pacman -S tool"));
        events.push(inst(d, 10, "tool"));
    }
    let out = history_compact(&events, 3, false);
    assert_eq!(out.len(), 3);
    let days: Vec<u8> = out
        .iter()
        .map(|s| match s {
            Summary::Singular { dt, .. } => dt.day,
            Summary::Count { dt, .. } => dt.day,
            Summary::Complex { dt, .. } => dt.day,
        })
        .collect();
    // the budget keeps the most recent transactions, oldest first
    assert_eq!(days, vec![3, 4, 5]);
}

#[test]
fn skips_transactions_without_named_packages() {
    let events = vec![
        cmd(1, 10, "pacman -S something-else"),
        inst(1, 10, "dep-only"),
        cmd(2, 10, "pacman -S vim"),
        inst(2, 10, "vim"),
    ];
    let out = history_compact(&events, 10, false);
    // the first transaction names nothing and costs no budget
    assert_eq!(out.len(), 1);
    match &out[0] {
        Summary::Singular { dt, named, .. } => {
            assert_eq!(dt.day, 2);
            assert_eq!(named, &vec!["vim".to_string()]);
        },
        _ => panic!("expected a singular transaction"),
    }
}

#[test]
fn upgrades_do_not_make_a_transaction_complex() {
    // upgrades beside installs leave the shape singular, but a
    // singular transaction with upgrades is not rendered
    let events = vec![
        cmd(1, 10, "pacman -Syu vim"),
        upg(1, 10, "lib"),
        inst(1, 10, "vim"),
    ];
    let out = history_compact(&events, 10, false);
    assert_eq!(out.len(), 0);
}

#[test]
fn mixed_transactions_render_as_complex() {
    let events = vec![
        cmd(1, 10, "pacman -S new -R old"),
        inst(1, 10, "new"),
        rem(1, 10, "old"),
    ];
    let out = history_compact(&events, 10, false);
    assert_eq!(out.len(), 1);
    match &out[0] {
        Summary::Complex { installs, removes, upgrades, downgrades, command, .. } => {
            assert_eq!(installs, &vec!["new".to_string()]);
            assert_eq!(removes, &vec!["old".to_string()]);
            assert!(upgrades.is_empty());
            assert!(downgrades.is_empty());
            assert_eq!(command, "pacman -S new -R old");
        },
        _ => panic!("expected a complex transaction"),
    }
}

#[test]
fn count_mode_tracks_the_running_total() {
    let events = vec![
        cmd(1, 10, "pacman -S a"),
        inst(1, 10, "a"),
        inst(1, 10, "a-dep"),
        cmd(2, 10, "pacman -R a-dep"),
        rem(2, 10, "a-dep"),
    ];
    let out = history_compact(&events, 10, true);
    assert_eq!(out.len(), 2);
    match &out[0] {
        Summary::Count { diff, after, verb, named, .. } => {
            assert_eq!(*diff, 2);
            assert_eq!(*after, 2);
            assert_eq!(*verb, CountVerb::Install);
            assert_eq!(named, &vec!["a".to_string()]);
        },
        _ => panic!("expected a count line"),
    }
    match &out[1] {
        Summary::Count { diff, after, verb, named, .. } => {
            assert_eq!(*diff, -1);
            assert_eq!(*after, 1);
            assert_eq!(*verb, CountVerb::Remove);
            assert_eq!(named, &vec!["a-dep".to_string()]);
        },
        _ => panic!("expected a count line"),
    }
}

#[test]
fn leading_unattributed_events_are_discarded() {
    // package events with no command below them are never flushed
    let events = vec![inst(1, 10, "orphan"), cmd(2, 10, "pacman -S vim"), inst(2, 10, "vim")];
    let out = history_compact(&events, 10, false);
    assert_eq!(out.len(), 1);
    match &out[0] {
        Summary::Singular { named, .. } => assert_eq!(named, &vec!["vim".to_string()]),
        _ => panic!("expected a singular transaction"),
    }
}

#[test]
fn accumulated_names_keep_the_scan_order() {
    // the reverse scan pushes most recent first, and the lists keep
    // that order
    let events = vec![
        cmd(1, 10, "pacman -S x y z"),
        inst(1, 10, "x"),
        inst(1, 10, "y"),
        inst(1, 10, "z"),
    ];
    let out = history_compact(&events, 10, false);
    assert_eq!(out.len(), 1);
    match &out[0] {
        Summary::Singular { named, .. } => {
            assert_eq!(named, &vec!["z".to_string(), "y".to_string(), "x".to_string()]);
        },
        _ => panic!("expected a singular transaction"),
    }
}

#[test]
fn complex_lists_keep_the_scan_order_per_category() {
    let events = vec![
        cmd(1, 10, "pacman -S a b -R c d"),
        inst(1, 10, "a"),
        inst(1, 10, "b"),
        rem(1, 10, "c"),
        rem(1, 10, "d"),
    ];
    let out = history_compact(&events, 10, false);
    assert_eq!(out.len(), 1);
    match &out[0] {
        Summary::Complex { installs, removes, .. } => {
            assert_eq!(installs, &vec!["b".to_string(), "a".to_string()]);
            assert_eq!(removes, &vec!["d".to_string(), "c".to_string()]);
        },
        _ => panic!("expected a complex transaction"),
    }
}
