use harbor::config::{parse_size, resolve, Mode, RawConfig, RawFolder, RawIgnore, RawOptions, RawRule};

use harbor::vars::expand_env;

fn no_options() -> RawOptions {
    RawOptions { to: None, mode: None, wait: None, overwrite: None, include_dirs: None }
}

fn no_ignore() -> RawIgnore {
    RawIgnore { matches: vec![] }
}

fn rule(pattern: Option<&str>, to: &str) -> RawRule {
    RawRule {
        match_pattern: pattern.map(|p| p.to_string()),
        to: to.to_string(),
        mode: None,
        name: None,
        mime: vec![],
        min_size: None,
        max_size: None,
    }
}

fn folder(path: &str) -> RawFolder {
    RawFolder { path: path.to_string(), options: no_options(), ignore: no_ignore(), rules: vec![] }
}

fn env_of(pairs: &[(&str, &str)]) -> Vec<(String, String)> {
    pairs.iter().map(|(k, v)| (k.to_string(), v.to_string())).collect()
}

/// The configuration of the sample file: defaults, a global ignore list,
/// a downloads folder with two rules and a folder without rules.
fn sample() -> RawConfig {
    let mut dl = folder("/home/me/Downloads");
    dl.options.wait = Some(15);
    dl.ignore.matches = vec!["*.srt".to_string()];
    dl.rules.push(rule(Some("*.{jpg,png}"), "/home/me/Pictures"));
    let mut inv = rule(Some("invoice-*"), "/home/me/work/invoices");
    inv.mode = Some(Mode::Copy);
    dl.rules.push(inv);
    let mut usb = folder("/mnt/usb/phone");
    usb.options.wait = Some(0);
    RawConfig {
        defaults: RawOptions {
            to: Some("/home/me/Downloads/organized".to_string()),
            mode: Some(Mode::Move),
            wait: Some(5),
            overwrite: Some(false),
            include_dirs: None,
        },
        ignore: RawIgnore { matches: vec!["*.part".to_string(), "*.crdownload".to_string()] },
        folders: vec![dl, usb],
    }
}

#[test]
fn parses_and_merges() {
    let cfg = resolve(sample(), &vec![]).unwrap();
    assert_eq!(cfg.folders.len(), 2);

    let dl = &cfg.folders[0];
    assert_eq!(dl.path, "/home/me/Downloads");
    assert_eq!(dl.rules[0].to, "/home/me/Pictures");
    assert_eq!(dl.options.wait, 15);
    assert_eq!(dl.rules[0].mode, Mode::Move);
    assert!(!dl.options.overwrite);
    assert_eq!(dl.ignore_patterns, vec!["*.part", "*.crdownload", "*.srt"]);
    assert_eq!(dl.rules.len(), 2);
    assert_eq!(dl.rules[1].mode, Mode::Copy);
    assert_eq!(dl.rules[0].mode, Mode::Move);

    let usb = &cfg.folders[1];
    assert_eq!(usb.options.wait, 0);
    assert_eq!(usb.rules.len(), 1);
    assert_eq!(usb.rules[0].match_pattern, "*");
    assert_eq!(usb.rules[0].name, "fallback");
    assert_eq!(usb.rules[0].to, "/home/me/Downloads/organized");
}

#[test]
fn rule_name_defaults_to_pattern() {
    let mut x = folder("/x");
    let mut fotos = rule(Some("*.jpg"), "/pics");
    fotos.name = Some("Fotos".to_string());
    x.rules.push(fotos);
    x.rules.push(rule(Some("*.pdf"), "/docs"));
    let raw = RawConfig { defaults: no_options(), ignore: no_ignore(), folders: vec![x] };
    let cfg = resolve(raw, &vec![]).unwrap();
    let w = &cfg.folders[0];
    assert_eq!(w.rules[0].name, "Fotos");
    assert_eq!(w.rules[1].name, "*.pdf");
}

#[test]
fn expands_env_in_paths() {
    let home = "/home/tester";
    let env = env_of(&[("HOME", home)]);
    let mut a = folder("$HOME/Downloads");
    a.options.to = Some("${HOME}/org".to_string());
    a.rules.push(rule(Some("*"), "$HOME/pics"));
    let b = folder("$HOME/empty");
    let raw = RawConfig { defaults: no_options(), ignore: no_ignore(), folders: vec![a, b] };
    let cfg = resolve(raw, &env).unwrap();
    assert_eq!(cfg.folders[0].path, format!("{home}/Downloads"));
    assert_eq!(cfg.folders[0].rules[0].to, format!("{home}/pics"));
    assert_eq!(cfg.folders[1].rules[0].to, format!("{home}/empty/organized"));
}

#[test]
fn unknown_env_stays_literal() {
    let mut x = folder("/x");
    x.options.to = Some("$HARBOR_DEFINITELY_UNSET/dst".to_string());
    let raw = RawConfig { defaults: no_options(), ignore: no_ignore(), folders: vec![x] };
    let cfg = resolve(raw, &env_of(&[("HOME", "/home/me")])).unwrap();
    assert_eq!(cfg.folders[0].rules[0].to, "$HARBOR_DEFINITELY_UNSET/dst");
}

#[test]
fn empty_folder_rejected() {
    let raw = RawConfig { defaults: no_options(), ignore: no_ignore(), folders: vec![] };
    let err = resolve(raw, &vec![]).unwrap_err();
    assert_eq!(err, "no [[folder]] dirs defined");
}

#[test]
fn parses_include_dirs_option() {
    let mut defaults = no_options();
    defaults.include_dirs = Some(true);
    let raw = RawConfig { defaults, ignore: no_ignore(), folders: vec![folder("/x")] };
    let cfg = resolve(raw, &vec![]).unwrap();
    assert!(cfg.folders[0].options.include_dirs);
}

#[test]
fn organized_default_when_no_to_anywhere() {
    let raw = RawConfig { defaults: no_options(), ignore: no_ignore(), folders: vec![folder("/data/in")] };
    let cfg = resolve(raw, &vec![]).unwrap();
    let f = &cfg.folders[0];
    assert_eq!(f.rules.len(), 1);
    assert_eq!(f.rules[0].to, "/data/in/organized");
    assert_eq!(f.rules[0].mode, Mode::Move);
    assert_eq!(f.options.wait, 5);
    assert!(!f.options.overwrite);
    assert!(!f.options.include_dirs);
}

#[test]
fn folder_options_override_defaults() {
    let mut defaults = no_options();
    defaults.mode = Some(Mode::Copy);
    defaults.overwrite = Some(true);
    let mut x = folder("/x");
    x.options.mode = Some(Mode::Move);
    x.rules.push(rule(Some("*"), "/y"));
    let raw = RawConfig { defaults, ignore: no_ignore(), folders: vec![x] };
    let cfg = resolve(raw, &vec![]).unwrap();
    assert_eq!(cfg.folders[0].rules[0].mode, Mode::Move);
    assert!(cfg.folders[0].options.overwrite);
}

#[test]
fn sizes_are_parsed_and_checked() {
    let mut x = folder("/x");
    let mut big = rule(Some("*"), "/big");
    big.min_size = Some("1KB".to_string());
    big.max_size = Some("2 mb".to_string());
    x.rules.push(big);
    let raw = RawConfig { defaults: no_options(), ignore: no_ignore(), folders: vec![x] };
    let cfg = resolve(raw, &vec![]).unwrap();
    assert_eq!(cfg.folders[0].rules[0].min_size, Some(1024));
    assert_eq!(cfg.folders[0].rules[0].max_size, Some(2 * 1024 * 1024));

    let mut y = folder("/y");
    let mut bad = rule(Some("*"), "/bad");
    bad.min_size = Some("12 parsecs".to_string());
    y.rules.push(bad);
    let raw = RawConfig { defaults: no_options(), ignore: no_ignore(), folders: vec![y] };
    assert_eq!(resolve(raw, &vec![]).unwrap_err(), "invalid size: 12 parsecs");
}

#[test]
fn parse_size_units() {
    assert_eq!(parse_size("500B"), Some(500));
    assert_eq!(parse_size("10KB"), Some(10 * 1024));
    assert_eq!(parse_size("500MB"), Some(500 * 1024 * 1024));
    assert_eq!(parse_size("1GB"), Some(1024 * 1024 * 1024));
    assert_eq!(parse_size("2000"), Some(2000));
    assert_eq!(parse_size("3 k"), Some(3072));
    assert_eq!(parse_size("1tb"), Some(1u64 << 40));
    assert_eq!(parse_size(""), None);
    assert_eq!(parse_size("MB"), None);
    assert_eq!(parse_size("5XB"), None);
    assert_eq!(parse_size("99999999999999999999"), None);
    assert_eq!(parse_size("20000000TB"), None);
}

#[test]
fn expand_env_forms() {
    let env = env_of(&[("A", "1"), ("B_2", "two")]);
    assert_eq!(expand_env("$A/$B_2/${A}x", &env), "1/two/1x");
    assert_eq!(expand_env("$Z/${Z}/$/${A", &env), "$Z/${Z}/$/${A");
    assert_eq!(expand_env("cost $5", &env), "cost $5");
    assert_eq!(expand_env("", &env), "");
}
