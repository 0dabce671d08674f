use harbor::config::{Folder, Mode, Options, Rule};
use harbor::dispatch::{Action, Dispatcher, Event};
use harbor::table::Row;

fn folders() -> Vec<Folder> {
    vec![Folder {
        path: "/w".to_string(),
        options: Options { wait: 0, overwrite: false, include_dirs: false },
        ignore_patterns: vec!["*.crdownload".to_string()],
        rules: vec![Rule {
            match_pattern: "*".into(),
            name: "all".into(),
            to: "/out".to_string(),
            mode: Mode::Move,
            mime_patterns: vec![],
            min_size: None,
            max_size: None,
        }],
    }]
}

fn moved(file: &str) -> Event {
    Event::Moved(Row { rule: "all".into(), file: file.into(), dest: format!("/out/{file}") })
}

#[test]
fn one_worker_per_path_at_a_time() {
    let f = folders();
    let mut d = Dispatcher::new(f).unwrap();
    match d.step(Event::Reported("/w/a.txt".into())) {
        Action::Spawn { path, folder, name } => {
            assert_eq!(path, "/w/a.txt");
            assert_eq!(folder, 0);
            assert_eq!(name, "a.txt");
        }
        _ => panic!("expected a worker"),
    }
    // the same location, written differently, is already being handled
    assert!(matches!(d.step(Event::Reported("/w//a.txt".into())), Action::Nothing));
    assert!(matches!(d.step(Event::Finished("/w/a.txt".into())), Action::Nothing));
    assert!(matches!(d.step(Event::Reported("/w/a.txt".into())), Action::Spawn { .. }));
}

#[test]
fn skipped_reports_start_no_worker() {
    let f = folders();
    let mut d = Dispatcher::new(f).unwrap();
    assert!(matches!(d.step(Event::Reported("/w".into())), Action::Nothing));
    assert!(matches!(d.step(Event::Reported("/out/x".into())), Action::Nothing));
    assert!(matches!(d.step(Event::Reported("/elsewhere/x".into())), Action::Nothing));
    assert!(matches!(d.step(Event::Reported("/w/x.part".into())), Action::Nothing));
    assert!(matches!(d.step(Event::Reported("/w/x.crdownload".into())), Action::Nothing));
}

#[test]
fn batches_are_reported_when_full_quiet_or_closed() {
    let f = folders();
    let mut d = Dispatcher::new(f).unwrap();
    assert!(matches!(d.step(Event::Quiet), Action::Nothing));
    assert!(matches!(d.step(moved("a")), Action::Nothing));
    match d.step(Event::Quiet) {
        Action::Print(t) => assert!(t.starts_with("harbor: 1 file(s) organized in 1 categories\n")),
        _ => panic!("expected a report"),
    }
    for i in 0..49 {
        assert!(matches!(d.step(moved(&format!("f{i}"))), Action::Nothing));
    }
    match d.step(moved("last")) {
        Action::Print(t) => assert!(t.starts_with("harbor: 50 file(s)")),
        _ => panic!("expected a report"),
    }
    assert!(matches!(d.step(moved("b")), Action::Nothing));
    match d.step(Event::Closed) {
        Action::Stop(Some(t)) => assert!(t.starts_with("harbor: 1 file(s)")),
        _ => panic!("expected the last report"),
    }
    assert!(matches!(d.step(Event::Closed), Action::Stop(None)));
}

#[test]
fn folders_with_oversized_globs_are_refused() {
    let mut f = folders();
    f[0].ignore_patterns.push("{".repeat(64));
    assert!(Dispatcher::new(f).is_none());
    assert!(Dispatcher::new(folders()).is_some());
}
