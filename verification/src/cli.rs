//! The command line: what each argument asks for.
use vstd::prelude::*;

use crate::path::join;
use crate::text::{chars_eq, from_chars, is_prefix, starts_with, to_chars};

verus! {

/// What the command line asks for.
#[derive(Debug, Clone, PartialEq, Eq)]
pub enum Command {
    /// Print help and stop.
    Help,
    /// Print the version and stop.
    Version,
    /// `mime` without files.
    MimeUsage,
    /// A flag that needs a value came last.
    MissingValue(String),
    /// An option that is not known.
    Unrecognized(String),
    /// Report the MIME type of each file.
    Mime { files: Vec<String> },
    /// Validate the configuration (the default file when `None`).
    Check { config: Option<String> },
    /// Simulate the moves.
    DryRun { config: Option<String> },
    /// Watch and organize.
    Run { config: Option<String> },
}

/// The mathematical content of a `Command`.
pub enum CommandView {
    Help,
    Version,
    MimeUsage,
    MissingValue(Seq<char>),
    Unrecognized(Seq<char>),
    Mime { files: Seq<Seq<char>> },
    Check { config: Option<Seq<char>> },
    DryRun { config: Option<Seq<char>> },
    Run { config: Option<Seq<char>> },
}

/// The view of an optional string.
pub open spec fn opt_view(o: Option<String>) -> Option<Seq<char>> {
    match o {
        Some(s) => Some(s@),
        None => None,
    }
}

impl View for Command {
    type V = CommandView;

    open spec fn view(&self) -> CommandView {
        match self {
            Command::Help => CommandView::Help,
            Command::Version => CommandView::Version,
            Command::MimeUsage => CommandView::MimeUsage,
            Command::MissingValue(a) => CommandView::MissingValue(a@),
            Command::Unrecognized(a) => CommandView::Unrecognized(a@),
            Command::Mime { files } => CommandView::Mime {
                files: crate::config::string_views(files@),
            },
            Command::Check { config } => CommandView::Check { config: opt_view(*config) },
            Command::DryRun { config } => CommandView::DryRun { config: opt_view(*config) },
            Command::Run { config } => CommandView::Run { config: opt_view(*config) },
        }
    }
}

/// The command that the arguments from index `i` on ask for, after the
/// earlier ones set `config`, `check` and `dry`: the first of help,
/// version or `mime` decides at once; `-c`/`--config PATH`,
/// `--config=PATH` or a bare word sets the configuration file (the last
/// one wins); `check` and `-n`/`--dry-run` select the command, `check`
/// first.
pub open spec fn parse_from(
    args: Seq<Seq<char>>,
    i: int,
    config: Option<Seq<char>>,
    check: bool,
    dry: bool,
) -> CommandView
    decreases args.len() - i,
{
    if i < 0 || i >= args.len() {
        if check {
            CommandView::Check { config }
        } else if dry {
            CommandView::DryRun { config }
        } else {
            CommandView::Run { config }
        }
    } else {
        let a = args[i];
        if a == "-h"@ || a == "--help"@ || a == "help"@ {
            CommandView::Help
        } else if a == "-v"@ || a == "--version"@ || a == "version"@ {
            CommandView::Version
        } else if a == "check"@ {
            parse_from(args, i + 1, config, true, dry)
        } else if a == "-n"@ || a == "--dry-run"@ {
            parse_from(args, i + 1, config, check, true)
        } else if a == "mime"@ {
            if i + 1 >= args.len() {
                CommandView::MimeUsage
            } else {
                CommandView::Mime { files: args.skip(i + 1) }
            }
        } else if a == "-c"@ || a == "--config"@ {
            if i + 1 >= args.len() {
                CommandView::MissingValue(a)
            } else {
                parse_from(args, i + 2, Some(args[i + 1]), check, dry)
            }
        } else if is_prefix("--config="@, a) {
            parse_from(args, i + 1, Some(a.skip(9)), check, dry)
        } else if !(a.len() > 0 && a[0] == '-') {
            parse_from(args, i + 1, Some(a), check, dry)
        } else {
            CommandView::Unrecognized(a)
        }
    }
}

/// Whether `a` spells the literal `lit`.
fn is_lit(a: &[char], lit: &str) -> (res: bool)
    ensures
        res == (a@ == lit@),
{
    let l = to_chars(lit);
    chars_eq(a, l.as_slice())
}

/// Reads the command line; `args[0]` is the program's name.
pub fn parse_args(args: &Vec<String>) -> (cmd: Command)
    ensures
        cmd@ == parse_from(crate::config::string_views(args@), 1, None, false, false),
{
    let ghost sv = crate::config::string_views(args@);
    let mut config: Option<String> = None;
    let mut check = false;
    let mut dry = false;
    let mut i: usize = 1;
    while i < args.len()
        invariant
            1 <= i,
            sv == crate::config::string_views(args@),
            parse_from(sv, 1, None, false, false) == parse_from(
                sv,
                i as int,
                opt_view(config),
                check,
                dry,
            ),
        decreases args.len() - i,
    {
        let a = to_chars(args[i].as_str());
        assert(a@ == sv[i as int]);
        if is_lit(a.as_slice(), "-h") || is_lit(a.as_slice(), "--help") || is_lit(
            a.as_slice(),
            "help",
        ) {
            return Command::Help;
        } else if is_lit(a.as_slice(), "-v") || is_lit(a.as_slice(), "--version") || is_lit(
            a.as_slice(),
            "version",
        ) {
            return Command::Version;
        } else if is_lit(a.as_slice(), "check") {
            check = true;
        } else if is_lit(a.as_slice(), "-n") || is_lit(a.as_slice(), "--dry-run") {
            dry = true;
        } else if is_lit(a.as_slice(), "mime") {
            if i + 1 >= args.len() {
                return Command::MimeUsage;
            }
            let mut files: Vec<String> = Vec::new();
            let mut k: usize = i + 1;
            while k < args.len()
                invariant
                    i + 1 <= k <= args.len(),
                    sv == crate::config::string_views(args@),
                    files@.len() == k - (i + 1),
                    forall|t: int| 0 <= t < files@.len() ==> (#[trigger] files@[t])@ == sv[t + i + 1],
                decreases args.len() - k,
            {
                files.push(args[k].clone());
                k = k + 1;
            }
            assert(crate::config::string_views(files@) =~= sv.skip(i + 1));
            return Command::Mime { files };
        } else if is_lit(a.as_slice(), "-c") || is_lit(a.as_slice(), "--config") {
            if i + 1 >= args.len() {
                return Command::MissingValue(args[i].clone());
            }
            i = i + 1;
            config = Some(args[i].clone());
        } else {
            let prefix = to_chars("--config=");
            proof {
                reveal_strlit("--config=");
            }
            if starts_with(a.as_slice(), prefix.as_slice()) {
                let rest = &a.as_slice()[9..a.len()];
                assert(rest@ =~= a@.skip(9));
                config = Some(from_chars(rest));
            } else if !(a.len() > 0 && a[0] == '-') {
                config = Some(args[i].clone());
            } else {
                return Command::Unrecognized(args[i].clone());
            }
        }
        i = i + 1;
    }
    if check {
        Command::Check { config }
    } else if dry {
        Command::DryRun { config }
    } else {
        Command::Run { config }
    }
}

/// The configuration file used when none is given: under
/// `$XDG_CONFIG_HOME`, else `$HOME/.config`, else `$USERPROFILE/.config`,
/// else `config.toml` in the current directory.
pub open spec fn default_config_spec(
    xdg: Option<Seq<char>>,
    home: Option<Seq<char>>,
    profile: Option<Seq<char>>,
) -> Seq<char> {
    match xdg {
        Some(x) => join(x, "harbor/config.toml"@),
        None => match home {
            Some(h) => join(h, ".config/harbor/config.toml"@),
            None => match profile {
                Some(p) => join(p, ".config/harbor/config.toml"@),
                None => "config.toml"@,
            },
        },
    }
}

fn join_str(a: &str, b: &str) -> (out: String)
    ensures
        out@ == join(a@, b@),
{
    let ac = to_chars(a);
    let bc = to_chars(b);
    let j = crate::path::join_paths(ac.as_slice(), bc.as_slice());
    from_chars(j.as_slice())
}

/// The default configuration file, from the values of `XDG_CONFIG_HOME`,
/// `HOME` and `USERPROFILE` (each absent when unset).
pub fn default_config_path(xdg: Option<&str>, home: Option<&str>, profile: Option<&str>) -> (out:
    String)
    ensures
        out@ == default_config_spec(
            match xdg {
                Some(x) => Some(x@),
                None => None,
            },
            match home {
                Some(h) => Some(h@),
                None => None,
            },
            match profile {
                Some(p) => Some(p@),
                None => None,
            },
        ),
{
    match xdg {
        Some(x) => join_str(x, "harbor/config.toml"),
        None => match home {
            Some(h) => join_str(h, ".config/harbor/config.toml"),
            None => match profile {
                Some(p) => join_str(p, ".config/harbor/config.toml"),
                None => from_chars(to_chars("config.toml").as_slice()),
            },
        },
    }
}

} // verus!
