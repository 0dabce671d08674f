use harbor::config::{resolve, Folder, Mode, RawConfig, RawFolder, RawIgnore, RawOptions, RawRule};
use harbor::mime::detect;
use harbor::glob::{MAX_GLOB_BRACES, MAX_GLOB_CHARS};
use harbor::rules::{expand_date_placeholders, FolderRules};

fn no_options() -> RawOptions {
    RawOptions { to: None, mode: None, wait: None, overwrite: None, include_dirs: None }
}

fn rule(name: Option<&str>, pattern: Option<&str>, to: &str) -> RawRule {
    RawRule {
        match_pattern: pattern.map(|p| p.to_string()),
        to: to.to_string(),
        mode: None,
        name: name.map(|n| n.to_string()),
        mime: vec![],
        min_size: None,
        max_size: None,
    }
}

fn single_folder(rules: Vec<RawRule>, global_ignore: Vec<&str>, local_ignore: Vec<&str>) -> Folder {
    let mut options = no_options();
    options.wait = Some(0);
    let f = RawFolder {
        path: "/x".to_string(),
        options,
        ignore: RawIgnore { matches: local_ignore.iter().map(|s| s.to_string()).collect() },
        rules,
    };
    let raw = RawConfig {
        defaults: no_options(),
        ignore: RawIgnore { matches: global_ignore.iter().map(|s| s.to_string()).collect() },
        folders: vec![f],
    };
    resolve(raw, &vec![]).unwrap().folders.remove(0)
}

/// The folder of the rule tests: photos, invoices (copied), everything else.
fn folder() -> Folder {
    let mut invoices = rule(None, Some("invoice-*"), "/invoices");
    invoices.mode = Some(Mode::Copy);
    single_folder(
        vec![rule(Some("Fotos"), Some("*.{jpg,png}"), "/pics"), invoices, rule(None, Some("*"), "/misc")],
        vec!["*.part"],
        vec![".*"],
    )
}

#[test]
fn first_match_wins() {
    let wr = FolderRules::build(&folder());
    let t: u64 = 1_700_000_000;
    let r = wr.find("photo.jpg", 0, &None).unwrap();
    assert_eq!(r.resolve_dest(t), "/pics");
    assert_eq!(r.mode(), Mode::Move);
    assert_eq!(r.name(), "Fotos");

    let r = wr.find("invoice-9.txt", 0, &None).unwrap();
    assert_eq!(r.resolve_dest(t), "/invoices");
    assert_eq!(r.mode(), Mode::Copy);
}

#[test]
fn fallback_star() {
    let wr = FolderRules::build(&folder());
    let r = wr.find("random.pdf", 0, &None).unwrap();
    assert_eq!(r.resolve_dest(0), "/misc");
}

#[test]
fn ignored_matches_global_and_local() {
    let wr = FolderRules::build(&folder());
    assert!(wr.ignored("x.part"));
    assert!(wr.ignored(".hidden"));
    assert!(!wr.ignored("photo.jpg"));
}

#[test]
fn builtin_ignores_partial_and_temporary_files() {
    let wr = FolderRules::build(&single_folder(vec![], vec![], vec![]));
    assert!(wr.ignored("movie.mkv.part"));
    assert!(wr.ignored("scratch.tmp"));
    assert!(!wr.ignored("movie.mkv"));
}

#[test]
fn mime_rule_matches() {
    let mut images = rule(Some("Images"), None, "/images");
    images.mime = vec!["image/*".to_string()];
    let mut docs = rule(Some("Docs"), None, "/docs");
    docs.mime = vec!["application/pdf".to_string(), "text/*".to_string()];
    let wr = FolderRules::build(&single_folder(vec![images, docs], vec![], vec![]));

    // Extension fallback in mime::detect (the files do not exist)
    let m = detect("/x/photo.png", &[]);
    let r = wr.find("image_no_ext", 0, &m).unwrap();
    assert_eq!(r.name(), "Images");
    assert_eq!(r.resolve_dest(0), "/images");

    let m = detect("/x/doc.pdf", &[]);
    let r = wr.find("doc.pdf", 0, &m).unwrap();
    assert_eq!(r.name(), "Docs");
    assert_eq!(r.resolve_dest(0), "/docs");
}

#[test]
fn date_placeholders_expansion() {
    // 2026-08-21T00:00:00Z = 1787270400 secs
    let fixed_time: u64 = 1787270400;
    let s = "/photos/{year}/{month}/{day}/{date}";
    let res = expand_date_placeholders(s, fixed_time);
    assert_eq!(res, "/photos/2026/08/21/2026-08-21");
}

#[test]
fn size_filter_matches() {
    let mut big = rule(Some("Big"), Some("*"), "/big");
    big.min_size = Some("1KB".to_string());
    let mut small = rule(Some("Small"), Some("*"), "/small");
    small.max_size = Some("500B".to_string());
    let wr = FolderRules::build(&single_folder(vec![big, small], vec![], vec![]));

    let r_small = wr.find("small.txt", 5, &None).unwrap();
    assert_eq!(r_small.name(), "Small");

    let r_big = wr.find("big.bin", 2000, &None).unwrap();
    assert_eq!(r_big.name(), "Big");

    assert!(wr.find("middle.bin", 700, &None).is_none());
    assert!(wr.uses_size());
    assert!(!wr.uses_mime());
}

#[test]
fn date_placeholders_aliases_and_epoch() {
    assert_eq!(
        expand_date_placeholders("{YYYY}-{MM}-{DD} {YYYY-MM-DD}", 0),
        "1970-01-01 1970-01-01"
    );
    // 2024-02-29 (a leap day) at noon
    assert_eq!(expand_date_placeholders("{date}", 1709208000), "2024-02-29");
    // 2000-03-01, after the century leap day
    assert_eq!(expand_date_placeholders("{date}", 951868800), "2000-03-01");
    // 1999-12-31T23:59:59Z
    assert_eq!(expand_date_placeholders("{year}/{month}/{day}", 946684799), "1999/12/31");
    // far future: year 10000 keeps all digits
    assert_eq!(expand_date_placeholders("{year}", 253402300800), "10000");
    assert_eq!(expand_date_placeholders("no placeholders", 5), "no placeholders");
}

#[test]
fn dest_without_braces_is_kept() {
    let wr = FolderRules::build(&single_folder(vec![rule(None, Some("*"), "/plain/{year")], vec![], vec![]));
    let r = wr.find("a", 0, &None).unwrap();
    assert_eq!(r.resolve_dest(1787270400), "/plain/{year");
    let wr = FolderRules::build(&single_folder(vec![rule(None, Some("*"), "/p/{year}")], vec![], vec![]));
    let r = wr.find("a", 0, &None).unwrap();
    assert_eq!(r.resolve_dest(1787270400), "/p/2026");
}

#[test]
fn invalid_glob_never_matches() {
    let mut by_mime = rule(Some("Bad"), Some("[unclosed"), "/bad");
    by_mime.mime = vec!["text/*".to_string()];
    let wr = FolderRules::build(&single_folder(vec![by_mime], vec![], vec![]));
    assert!(wr.find("[unclosed", 0, &None).is_none());
    let m = Some("text/plain".to_string());
    assert_eq!(wr.find("[unclosed", 0, &m).unwrap().name(), "Bad");
}

#[test]
fn overlong_globs_are_refused_before_compiling() {
    let ok = folder();
    assert!(FolderRules::can_build(&ok));
    let long = "?".repeat(MAX_GLOB_CHARS);
    let bad = single_folder(vec![rule(None, Some(&long), "/x")], vec![], vec![]);
    assert!(!FolderRules::can_build(&bad));
    let bad_ignore = single_folder(vec![], vec![], vec![long.as_str()]);
    assert!(!FolderRules::can_build(&bad_ignore));
    // a glob just under the bound compiles (or is refused) without a panic
    let big = "?".repeat(MAX_GLOB_CHARS - 1);
    let huge = single_folder(vec![rule(None, Some(&big), "/x")], vec![], vec![]);
    let wr = FolderRules::build(&huge);
    assert!(wr.find("a", 0, &None).is_none());
}

#[test]
fn destination_follows_modification_time() {
    let wr = FolderRules::build(&single_folder(vec![rule(None, Some("*"), "/p/{date}")], vec![], vec![]));
    let r = wr.find("a.jpg", 0, &None).unwrap();
    assert_eq!(r.resolve_dest(1787270400), "/p/2026-08-21");
    assert_eq!(r.resolve_dest(0), "/p/1970-01-01");
}

#[test]
fn deeply_nested_globs_are_refused_before_compiling() {
    let deep = format!("{}{}", "{".repeat(MAX_GLOB_BRACES), "}".repeat(MAX_GLOB_BRACES));
    let bad = single_folder(vec![rule(None, Some(&deep), "/x")], vec![], vec![]);
    assert!(!FolderRules::can_build(&bad));
    let shallow = format!("{}a{}", "{".repeat(MAX_GLOB_BRACES - 1), "}".repeat(MAX_GLOB_BRACES - 1));
    let ok = single_folder(vec![rule(None, Some(&shallow), "/x")], vec![], vec![]);
    assert!(FolderRules::can_build(&ok));
    let wr = FolderRules::build(&ok);
    assert!(wr.find("b", 0, &None).is_none());
}
