use paclog::event::Event;
use paclog::reconciler::intentional;
use paclog::timestamp::Dt;

fn dt(day: u8) -> Dt {
    Dt { year: 2023, month: 1, day, hour: 10 }
}

fn cmd(day: u8, text: &str) -> Event {
    Event::Command(dt(day), text.to_string())
}

fn inst(day: u8, name: &str) -> Event {
    Event::Installed(dt(day), name.to_string(), "(1.0-1)".to_string())
}

fn rem(day: u8, name: &str) -> Event {
    Event::Removed(dt(day), name.to_string(), "(1.0-1)".to_string())
}

fn lookup(out: &[(String, bool)], name: &str) -> Option<bool> {
    out.iter().find(|(n, _)| n == name).map(|(_, f)| *f)
}

#[test]
fn named_installs_are_intentional() {
    let events = vec![cmd(1, "pacman -S vim"), inst(1, "vim"), inst(1, "vim-runtime")];
    let out = intentional(&events);
    assert_eq!(lookup(&out, "vim"), Some(true));
    // a dependency was never named, so it is not intentional
    assert_eq!(lookup(&out, "vim-runtime"), None);
}

#[test]
fn a_named_remove_clears_the_package() {
    let events = vec![
        cmd(1, "pacman -S vim"),
        inst(1, "vim"),
        cmd(2, "pacman -R vim"),
        rem(2, "vim"),
    ];
    let out = intentional(&events);
    assert_eq!(lookup(&out, "vim"), None);
}

#[test]
fn a_reinstalled_package_is_flagged_as_once_removed() {
    let events = vec![
        cmd(1, "pacman -S vim"),
        inst(1, "vim"),
        cmd(2, "pacman -R vim"),
        rem(2, "vim"),
        cmd(3, "pacman -S vim"),
        inst(3, "vim"),
        cmd(4, "pacman -S emacs"),
        inst(4, "emacs"),
    ];
    let out = intentional(&events);
    // present, but removed at least once along the way
    assert_eq!(lookup(&out, "vim"), Some(false));
    // never removed
    assert_eq!(lookup(&out, "emacs"), Some(true));
    assert_eq!(out.len(), 2);
}

#[test]
fn each_package_is_attributed_to_its_own_command() {
    // the backward pass matches each install against the command
    // that caused it, not against a later one that names the package
    let events = vec![
        cmd(1, "pacman -S other"),
        inst(1, "vim"),
        cmd(2, "pacman -S vim"),
        inst(2, "unrelated"),
    ];
    let out = intentional(&events);
    // vim was installed by a command that did not name it, and the
    // command naming vim installed something else
    assert_eq!(lookup(&out, "vim"), None);
    assert_eq!(lookup(&out, "unrelated"), None);
    assert!(out.is_empty());
}

#[test]
fn removes_take_effect_before_installs_of_one_transaction() {
    // within one command, its named removes replay before its named
    // installs, so a package both removed and installed stays
    let events = vec![
        cmd(1, "pacman -S vim"),
        inst(1, "vim"),
        cmd(2, "pacman -S vim -R vim"),
        rem(2, "vim"),
        inst(2, "vim"),
    ];
    let out = intentional(&events);
    assert_eq!(lookup(&out, "vim"), Some(false));
}

#[test]
fn names_are_listed_once() {
    let events = vec![
        cmd(1, "pacman -S vim"),
        inst(1, "vim"),
        cmd(2, "pacman -S vim"),
        inst(2, "vim"),
    ];
    let out = intentional(&events);
    assert_eq!(out.len(), 1);
    assert_eq!(lookup(&out, "vim"), Some(true));
}
