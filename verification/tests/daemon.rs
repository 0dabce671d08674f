use harbor::config::{Folder, Mode, Options, Rule};
use harbor::daemon::{
    announces_entry, classify_event, folder_index, handles_entry, is_protected_dir, queues_report,
    stability_start, stability_step, ChangeKind, EntrySig, FileDecision, Stability,
};
use harbor::rules::FolderRules;
use harbor::table::{fit, fit_tail, flush_text, record_row, render_table, sort_rows, Row, FLUSH_BATCH};

fn row(rule: &str, file: &str, dest: &str) -> Row {
    Row { rule: rule.into(), file: file.into(), dest: dest.into() }
}

fn downloads() -> Vec<Folder> {
    let f1 = Folder {
        path: "/home/user/Downloads".to_string(),
        options: Options { wait: 1, overwrite: false, include_dirs: true },
        ignore_patterns: vec![],
        rules: vec![Rule {
            match_pattern: "*".into(),
            name: "test".into(),
            to: "/home/user/Downloads/Documents".to_string(),
            mode: Mode::Move,
            mime_patterns: vec![],
            min_size: None,
            max_size: None,
        }],
    };
    vec![f1]
}

#[test]
fn table_groups_by_rule_and_aligns() {
    let rows = vec![
        row("Musica", "album.flac", "/o/Music/album.flac"),
        row("Imagens", "férias_2025.jpg", "/o/Images/férias_2025.jpg"),
        row("Imagens", "logo.svg", "/o/Images/logo.svg"),
    ];
    let table = render_table(&rows);
    let lines: Vec<&str> = table.lines().collect();
    // top + header + sep + 2 groups (sep between) + 3 rows + bottom
    assert_eq!(lines.len(), 8);
    assert!(lines[0].starts_with('┌'));
    assert!(lines[1].starts_with('│'));
    assert!(lines[2].starts_with('├'));
    assert!(lines[lines.len() - 1].starts_with('└'));
    // every row line has exactly 4 vertical bars, multibyte-safe
    assert!(lines.iter().filter(|l| l.starts_with('│')).all(|l| l.matches('│').count() == 4));
}

#[test]
fn table_lines_share_width() {
    let rows = vec![row("A", "f", &"d".repeat(100)), row("Bb", "file", "/x")];
    let table = render_table(&rows);
    let widths: Vec<usize> = table.lines().map(|l| l.chars().count()).collect();
    assert!(widths.iter().all(|w| *w == widths[0]));
    // destinations are capped at 80 columns and keep their tail
    assert!(table.contains(&format!("…{}", "d".repeat(79))));
}

#[test]
fn protected_dirs_are_safely_ignored() {
    let folders = downloads();
    // Watched dir itself protected
    assert!(is_protected_dir("/home/user/Downloads", &folders));
    // Rule target dir protected
    assert!(is_protected_dir("/home/user/Downloads/Documents", &folders));
    // Child of rule target dir protected
    assert!(is_protected_dir("/home/user/Downloads/Documents/sub", &folders));
    // Normal downloaded folder NOT protected
    assert!(!is_protected_dir("/home/user/Downloads/MyFolder", &folders));
}

#[test]
fn protected_matches_whole_components() {
    let folders = downloads();
    assert!(is_protected_dir("/home/user/Downloads/Documents/", &folders));
    assert!(is_protected_dir("/home/user//Downloads", &folders));
    assert!(!is_protected_dir("/home/user/Downloads/DocumentsOld", &folders));
    assert!(is_protected_dir("/home", &folders));
}

#[test]
fn fit_pads_and_cuts() {
    assert_eq!(fit("ab", 4), "ab  ");
    assert_eq!(fit("abcdef", 4), "abc…");
    assert_eq!(fit_tail("abcdef", 4), "…def");
    assert_eq!(fit_tail("ab", 3), "ab ");
}

#[test]
fn flush_sorts_counts_and_empties() {
    let mut rows = vec![row("b", "2", "/d/2"), row("a", "9", "/d/9"), row("b", "1", "/d/1")];
    let text = flush_text(&mut rows).unwrap();
    assert!(rows.is_empty());
    assert!(text.starts_with("harbor: 3 file(s) organized in 2 categories\n"));
    let body: Vec<&str> = text.lines().skip(4).collect();
    assert!(body[0].contains("│ a "));
    assert!(body[2].contains("│ b    │ 1 "));
    assert!(body[3].contains("│ b    │ 2 "));
    let mut none: Vec<Row> = vec![];
    assert!(flush_text(&mut none).is_none());
}

#[test]
fn sort_is_stable() {
    let rows = vec![row("r", "f", "/first"), row("a", "z", "/x"), row("r", "f", "/second")];
    let sorted = sort_rows(&rows);
    let dests: Vec<&str> = sorted.iter().map(|r| r.dest.as_str()).collect();
    assert_eq!(dests, vec!["/x", "/first", "/second"]);
}

#[test]
fn events_are_classified() {
    let folders = downloads();
    let compiled: Vec<FolderRules> = folders.iter().map(FolderRules::build).collect();
    assert_eq!(classify_event("/home/user/Downloads/Documents/a.txt", &folders, &compiled, false), FileDecision::Protected);
    assert_eq!(classify_event("/home/user/Downloads/a.txt", &folders, &compiled, true), FileDecision::AlreadyPending);
    assert_eq!(classify_event("/elsewhere/a.txt", &folders, &compiled, false), FileDecision::NoFolder);
    assert_eq!(classify_event("/home/user/Downloads/a.part", &folders, &compiled, false), FileDecision::Ignored);
    assert_eq!(
        classify_event("/home/user/Downloads/a.txt", &folders, &compiled, false),
        FileDecision::Process { folder: 0, name: "a.txt".to_string() }
    );
    assert_eq!(folder_index("/home/user/Downloads/x", &folders), Some(0));
    assert_eq!(folder_index("/home/user/Downloadsx", &folders), None);
}

#[test]
fn stability_waits_for_quiet_cooldown() {
    let s1 = EntrySig { len: 10, after_epoch: true, secs: 100, nanos: 0 };
    let s2 = EntrySig { len: 20, after_epoch: true, secs: 101, nanos: 0 };
    assert_eq!(stability_start(0, true, None), Stability::Stable);
    assert_eq!(stability_start(0, false, Some(s1)), Stability::Vanished);
    assert_eq!(stability_start(2, true, None), Stability::Vanished);
    let st = stability_start(2, true, Some(s1));
    assert_eq!(st, Stability::Waiting { last: s1, stable: 0 });
    let st = stability_step(2, s1, 0, Some(s2));
    assert_eq!(st, Stability::Waiting { last: s2, stable: 0 });
    let st = stability_step(2, s2, 0, Some(s2));
    assert_eq!(st, Stability::Waiting { last: s2, stable: 1 });
    assert_eq!(stability_step(2, s2, 1, Some(s2)), Stability::Stable);
    assert_eq!(stability_step(2, s2, 1, None), Stability::Vanished);
}

#[test]
fn only_arrivals_of_handled_entries_are_queued() {
    assert!(announces_entry(ChangeKind::Create));
    assert!(announces_entry(ChangeKind::ModifyData));
    assert!(announces_entry(ChangeKind::ModifyName));
    assert!(!announces_entry(ChangeKind::Other));
    assert!(handles_entry(true, false, false));
    assert!(!handles_entry(false, true, false));
    assert!(handles_entry(false, true, true));
    assert!(!handles_entry(false, false, true));
    assert!(queues_report(ChangeKind::ModifyName, true, false, false));
    assert!(!queues_report(ChangeKind::Other, true, false, true));
    assert!(!queues_report(ChangeKind::Create, false, true, false));
}

#[test]
fn full_batch_is_reported_at_once() {
    let mut rows: Vec<Row> = Vec::new();
    for i in 0..FLUSH_BATCH - 1 {
        assert!(record_row(&mut rows, row("R", &format!("f{i}"), "/d")).is_none());
    }
    assert_eq!(rows.len(), 49);
    let report = record_row(&mut rows, row("R", "last", "/d")).unwrap();
    assert!(report.starts_with("harbor: 50 file(s) organized in 1 categories\n"));
    assert!(rows.is_empty());
}
