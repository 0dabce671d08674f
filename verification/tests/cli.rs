use harbor::cli::{default_config_path, parse_args, Command};

fn args(list: &[&str]) -> Vec<String> {
    std::iter::once("harbor").chain(list.iter().copied()).map(|s| s.to_string()).collect()
}

#[test]
fn commands_and_flags() {
    assert_eq!(parse_args(&args(&[])), Command::Run { config: None });
    assert_eq!(parse_args(&args(&["check"])), Command::Check { config: None });
    assert_eq!(parse_args(&args(&["--dry-run", "-c", "/c.toml"])), Command::DryRun { config: Some("/c.toml".into()) });
    assert_eq!(parse_args(&args(&["-n", "check"])), Command::Check { config: None });
    assert_eq!(parse_args(&args(&["--config=/a.toml", "/b.toml"])), Command::Run { config: Some("/b.toml".into()) });
    assert_eq!(parse_args(&args(&["check", "--help"])), Command::Help);
    assert_eq!(parse_args(&args(&["version"])), Command::Version);
    assert_eq!(parse_args(&args(&["mime"])), Command::MimeUsage);
    assert_eq!(
        parse_args(&args(&["mime", "a.png", "-c"])),
        Command::Mime { files: vec!["a.png".into(), "-c".into()] }
    );
    assert_eq!(parse_args(&args(&["--config"])), Command::MissingValue("--config".into()));
    assert_eq!(parse_args(&args(&["--bogus"])), Command::Unrecognized("--bogus".into()));
}

#[test]
fn default_config_locations() {
    assert_eq!(default_config_path(Some("/x"), Some("/h"), None), "/x/harbor/config.toml");
    assert_eq!(default_config_path(None, Some("/h"), None), "/h/.config/harbor/config.toml");
    assert_eq!(default_config_path(None, None, Some("C:/U")), "C:/U/.config/harbor/config.toml");
    assert_eq!(default_config_path(None, None, None), "config.toml");
}
