use paclog::event::{parse, Event};
use paclog::history::history_full;
use paclog::report::{bar_height, fill_gaps, frequency_of, package_history, summary, time_buckets, EventKind, TimeUnit};
use paclog::timestamp::Dt;

fn dt(day: u8, hour: u8) -> Dt {
    Dt { year: 2023, month: 1, day, hour }
}

fn cmd(day: u8, hour: u8, text: &str) -> Event {
    Event::Command(dt(day, hour), text.to_string())
}

fn inst(day: u8, hour: u8, name: &str) -> Event {
    Event::Installed(dt(day, hour), name.to_string(), "(1.0-1)".to_string())
}

fn rem(day: u8, hour: u8, name: &str) -> Event {
    Event::Removed(dt(day, hour), name.to_string(), "(1.0-1)".to_string())
}

fn upg(day: u8, hour: u8, name: &str) -> Event {
    Event::Upgraded(dt(day, hour), name.to_string(), "(1.0 -> 1.1)".to_string())
}

#[test]
fn summary_counts_events_by_kind() {
    let events = vec![
        cmd(1, 10, "pacman -S a"),
        inst(1, 10, "a"),
        inst(1, 10, "b"),
        cmd(2, 10, "pacman -R b"),
        rem(2, 10, "b"),
        cmd(3, 10, "pacman -Syu"),
        upg(3, 10, "a"),
        upg(3, 10, "c"),
    ];
    let s = summary(&events);
    assert_eq!(s.events, 8);
    assert_eq!(s.installs, 2);
    assert_eq!(s.removes, 1);
    assert_eq!(s.upgrades, 2);
    assert_eq!(s.downgrades, 0);
    assert_eq!(s.packages, 1);
    // the two upgrades follow one command: one update run
    assert_eq!(s.updates, 1);
    let (fdt, fcmd) = s.first_command.unwrap();
    assert_eq!(fdt.day, 1);
    assert_eq!(fcmd, "pacman -S a");
}

#[test]
fn summary_counts_separate_update_runs() {
    let events = vec![
        cmd(1, 10, "pacman -Syu"),
        upg(1, 10, "a"),
        upg(1, 10, "b"),
        cmd(2, 10, "pacman -Syu"),
        upg(2, 10, "a"),
    ];
    let s = summary(&events);
    assert_eq!(s.updates, 2);
    assert_eq!(s.upgrades, 3);
}

#[test]
fn summary_has_no_first_command_when_log_opens_otherwise() {
    let events = vec![inst(1, 10, "a"), cmd(1, 11, "pacman -S b")];
    let s = summary(&events);
    assert!(s.first_command.is_none());
}

#[test]
fn frequency_of_counts_names_per_kind() {
    let events = vec![
        cmd(1, 10, "pacman -S a"),
        inst(1, 10, "a"),
        cmd(2, 10, "pacman -S a"),
        inst(2, 10, "a"),
        inst(2, 10, "b"),
        rem(2, 11, "b"),
    ];
    let installs = frequency_of(&events, EventKind::Installed);
    assert_eq!(installs.total(), 3);
    let sorted = installs.sorted_by_freq();
    assert_eq!(sorted[0], ("a".to_string(), 2));
    assert_eq!(sorted[1], ("b".to_string(), 1));

    let commands = frequency_of(&events, EventKind::Command);
    assert_eq!(commands.total(), 2);
    let sorted = commands.sorted_by_freq();
    assert_eq!(sorted[0], ("pacman -S a".to_string(), 2));
}

#[test]
fn time_buckets_count_per_calendar_unit() {
    let events = vec![
        cmd(1, 9, "x"),
        cmd(1, 9, "y"),
        cmd(2, 23, "z"),
        inst(2, 23, "a"),
    ];
    let hours = time_buckets(&events, EventKind::Command, TimeUnit::Hour);
    assert_eq!(hours.total(), 3);
    assert_eq!(hours.sorted_by_key(), vec![(9u16, 2usize), (23, 1)]);
    let years = time_buckets(&events, EventKind::Command, TimeUnit::Year);
    assert_eq!(years.sorted_by_key(), vec![(2023u16, 3usize)]);
    let days = time_buckets(&events, EventKind::Installed, TimeUnit::Day);
    assert_eq!(days.sorted_by_key(), vec![(2u16, 1usize)]);
}

#[test]
fn package_history_pairs_events_with_their_commands() {
    let events = vec![
        cmd(1, 10, "pacman -S vim"),
        inst(1, 10, "vim"),
        inst(1, 10, "other"),
        cmd(2, 10, "pacman -Syu"),
        upg(2, 10, "vim"),
        cmd(3, 10, "pacman -R vim"),
        rem(3, 10, "vim"),
    ];
    let hist = package_history(&events, &"vim".to_string());
    assert_eq!(hist.len(), 3);
    assert_eq!(hist[0].kind, EventKind::Installed);
    assert_eq!(hist[0].command, "pacman -S vim");
    assert_eq!(hist[0].version, "(1.0-1)");
    assert_eq!(hist[1].kind, EventKind::Upgraded);
    assert_eq!(hist[1].command, "pacman -Syu");
    assert_eq!(hist[2].kind, EventKind::Removed);
    assert_eq!(hist[2].dt.day, 3);
}

#[test]
fn history_full_keeps_commands_only_with_their_effects() {
    let events = vec![
        cmd(1, 10, "pacman -Sy"),
        cmd(2, 10, "pacman -S a"),
        inst(2, 10, "a"),
    ];
    let out = history_full(&events, 10, false);
    // the bare refresh command caused nothing shown and is dropped
    assert_eq!(out.len(), 2);
    assert!(matches!(&out[0], Event::Command(d, _) if d.day == 2));
    assert!(matches!(&out[1], Event::Installed(_, _, _)));
}

#[test]
fn history_full_obeys_the_budget() {
    let mut events = Vec::new();
    for d in 1..=6u8 {
        events.push(cmd(d, 10, "pacman -S t"));
        events.push(inst(d, 10, "t"));
    }
    let out = history_full(&events, 4, false);
    assert_eq!(out.len(), 4);
    // the most recent stretch, chronological
    assert!(matches!(&out[0], Event::Command(d, _) if d.day == 5));
    assert!(matches!(&out[1], Event::Installed(d, _, _) if d.day == 5));
    assert!(matches!(&out[2], Event::Command(d, _) if d.day == 6));
    assert!(matches!(&out[3], Event::Installed(d, _, _) if d.day == 6));
}

#[test]
fn history_full_can_ignore_upgrades() {
    let events = vec![
        cmd(1, 10, "pacman -Syu"),
        upg(1, 10, "a"),
        cmd(2, 10, "pacman -S b"),
        inst(2, 10, "b"),
    ];
    let with = history_full(&events, 10, false);
    assert_eq!(with.len(), 4);
    let without = history_full(&events, 10, true);
    // the upgrade is dropped, and so is the command that only caused it
    assert_eq!(without.len(), 2);
    assert!(matches!(&without[0], Event::Command(d, _) if d.day == 2));
}

#[test]
fn works_on_parsed_input_too() {
    let lines: Vec<String> = vec![
        "[2022-05-05T08:00:00+0000] [PACMAN] Running 'pacman -S tool'".to_string(),
        "[2022-05-05T08:00:01+0000] [ALPM] installed tool (1.0-1)".to_string(),
    ];
    let events = parse(lines);
    let s = summary(&events);
    assert_eq!(s.events, 2);
    assert_eq!(s.installs, 1);
    let years = time_buckets(&events, EventKind::Installed, TimeUnit::Year);
    assert_eq!(years.sorted_by_key(), vec![(2022u16, 1usize)]);
}

#[test]
fn fill_gaps_adds_zero_buckets() {
    let entries = vec![(3u16, 2usize), (5, 1), (8, 4)];
    let filled = fill_gaps(&entries);
    assert_eq!(
        filled,
        vec![(3u16, 2usize), (4, 0), (5, 1), (6, 0), (7, 0), (8, 4)]
    );
    let empty: Vec<(u16, usize)> = Vec::new();
    assert!(fill_gaps(&empty).is_empty());
    assert_eq!(fill_gaps(&vec![(7u16, 9usize)]), vec![(7u16, 9usize)]);
}

#[test]
fn bar_height_rounds_to_the_nearest_row() {
    // 10 rows, max 4: counts 0..=4 give 0, 3 (2.5 up), 5, 8 (7.5 up), 10
    assert_eq!(bar_height(0, 4, 10), 0);
    assert_eq!(bar_height(1, 4, 10), 3);
    assert_eq!(bar_height(2, 4, 10), 5);
    assert_eq!(bar_height(3, 4, 10), 8);
    assert_eq!(bar_height(4, 4, 10), 10);
    // a third of 10 rounds down
    assert_eq!(bar_height(1, 3, 10), 3);
}
