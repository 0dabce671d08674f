use harbor::files::{candidate, dedup_candidate, dedup_next, destination, file_name_text, DedupStep};

#[test]
fn dedup_suffixes_on_conflict() {
    assert_eq!(dedup_candidate("/tmp/d/dst/a.txt", 1), "/tmp/d/dst/a_1.txt");
    assert_eq!(dedup_candidate("/tmp/d/dst/a.txt", 2), "/tmp/d/dst/a_2.txt");
}

#[test]
fn dedup_handles_multiple_extensions() {
    // stem-based suffix keeps last extension intact: a.tar.gz -> a.tar_1.gz
    assert_eq!(dedup_candidate("/dst/a.tar.gz", 1), "/dst/a.tar_1.gz");
}

#[test]
fn dedup_without_extension_or_parent() {
    assert_eq!(dedup_candidate("/dst/README", 3), "/dst/README_3");
    assert_eq!(dedup_candidate("/dst/.bashrc", 1), "/dst/.bashrc_1");
    assert_eq!(dedup_candidate("notes.md", 12), "notes_12.md");
    assert_eq!(dedup_candidate("/dst/my_folder/", 1), "/dst/my_folder_1");
}

#[test]
fn destination_keeps_file_name() {
    assert_eq!(destination("/dst", "/src/a.txt"), "/dst/a.txt");
    assert_eq!(destination("/dst/", "/src/my_folder/"), "/dst/my_folder");
    assert_eq!(destination("", "a.txt"), "a.txt");
    assert_eq!(file_name_text("/src/a.txt"), "a.txt");
    assert_eq!(file_name_text("/"), "");
    assert_eq!(file_name_text("/src/.."), "");
}

#[test]
fn dedup_candidates_never_repeat() {
    let dst = "/o/docs/report.pdf";
    let names: Vec<String> = (1..=12).map(|n| dedup_candidate(dst, n)).collect();
    for (i, a) in names.iter().enumerate() {
        assert_ne!(a, dst);
        for b in &names[i + 1..] {
            assert_ne!(a, b);
        }
    }
    assert_eq!(names[10], "/o/docs/report_11.pdf");
}

#[test]
fn dedup_walk_takes_first_free_name() {
    assert_eq!(candidate("/o/a.txt", 0), "/o/a.txt");
    assert_eq!(candidate("/o/a.txt", 2), "/o/a_2.txt");
    assert_eq!(dedup_next(true, 0, false), DedupStep::Take);
    assert_eq!(dedup_next(true, 0, true), DedupStep::TryNext(1));
    assert_eq!(dedup_next(true, 1, true), DedupStep::TryNext(2));
    assert_eq!(dedup_next(false, 0, true), DedupStep::Take);
    let taken = ["/o/a.txt", "/o/a_1.txt", "/o/a_2.txt"];
    let mut k = 0;
    loop {
        let c = candidate("/o/a.txt", k);
        match dedup_next(true, k, taken.contains(&c.as_str())) {
            DedupStep::Take => break,
            DedupStep::TryNext(n) => k = n,
        }
    }
    assert_eq!(candidate("/o/a.txt", k), "/o/a_3.txt");
}
