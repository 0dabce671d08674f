//! Configuration: the values read from the TOML file, and how folder,
//! default and rule settings combine into the effective configuration.
use vstd::prelude::*;

use crate::path::join;
use crate::text::{extend_chars, from_chars, to_chars};
use vstd::string::StringExecFns;
use crate::vars::{expand_env, expand_env_spec};

verus! {

/// Whether a matched file is moved or copied.
#[derive(Debug, Clone, Copy, PartialEq, Eq, Structural)]
pub enum Mode {
    Move,
    Copy,
}

impl Default for Mode {
    fn default() -> (m: Mode)
        ensures
            m == Mode::Move,
    {
        Mode::Move
    }
}

/// The effective options of one watched folder.
#[derive(Debug, Clone, Copy, PartialEq, Eq, Structural)]
pub struct Options {
    /// Seconds a file must stay unchanged before it is handled.
    pub wait: u64,
    /// Replace an existing file of the same name instead of renaming.
    pub overwrite: bool,
    /// Organize directories too.
    pub include_dirs: bool,
}

/// One effective rule.
#[derive(Debug, Clone)]
pub struct Rule {
    /// Glob that file names are matched against (empty: no glob).
    pub match_pattern: String,
    /// The rule's name.
    pub name: String,
    /// Destination directory (may hold date placeholders).
    pub to: String,
    /// Move or copy.
    pub mode: Mode,
    /// MIME patterns (`image/png`, `image/*`) tried when the glob fails.
    pub mime_patterns: Vec<String>,
    /// Smallest size in bytes a file must have.
    pub min_size: Option<u64>,
    /// Largest size in bytes a file may have.
    pub max_size: Option<u64>,
}

/// One watched folder with its effective settings.
#[derive(Debug, Clone)]
pub struct Folder {
    pub path: String,
    pub options: Options,
    pub ignore_patterns: Vec<String>,
    pub rules: Vec<Rule>,
}

/// The effective configuration.
#[derive(Debug, Clone)]
pub struct Config {
    pub folders: Vec<Folder>,
}

/// The views of a list of strings.
pub open spec fn string_views(v: Seq<String>) -> Seq<Seq<char>> {
    v.map_values(|s: String| s@)
}

/// The mathematical content of a `Rule`.
#[verifier::ext_equal]
pub struct RuleView {
    pub match_pattern: Seq<char>,
    pub name: Seq<char>,
    pub to: Seq<char>,
    pub mode: Mode,
    pub mime_patterns: Seq<Seq<char>>,
    pub min_size: Option<u64>,
    pub max_size: Option<u64>,
}

impl View for Rule {
    type V = RuleView;

    open spec fn view(&self) -> RuleView {
        RuleView {
            match_pattern: self.match_pattern@,
            name: self.name@,
            to: self.to@,
            mode: self.mode,
            mime_patterns: string_views(self.mime_patterns@),
            min_size: self.min_size,
            max_size: self.max_size,
        }
    }
}

/// The mathematical content of a `Folder`.
#[verifier::ext_equal]
pub struct FolderView {
    pub path: Seq<char>,
    pub options: Options,
    pub ignore_patterns: Seq<Seq<char>>,
    pub rules: Seq<RuleView>,
}

impl View for Folder {
    type V = FolderView;

    open spec fn view(&self) -> FolderView {
        FolderView {
            path: self.path@,
            options: self.options,
            ignore_patterns: string_views(self.ignore_patterns@),
            rules: self.rules@.map_values(|r: Rule| r@),
        }
    }
}

impl View for Config {
    type V = Seq<FolderView>;

    open spec fn view(&self) -> Seq<FolderView> {
        self.folders@.map_values(|f: Folder| f@)
    }
}

/// Settings that may be given in `[defaults]` or per folder.
#[derive(Debug, Clone)]
pub struct RawOptions {
    pub to: Option<String>,
    pub mode: Option<Mode>,
    pub wait: Option<u64>,
    pub overwrite: Option<bool>,
    pub include_dirs: Option<bool>,
}

/// Ignore patterns of `[ignore]` or `[folder.ignore]`.
#[derive(Debug, Clone)]
pub struct RawIgnore {
    pub matches: Vec<String>,
}

/// One `[[folder.rule]]` as written.
#[derive(Debug, Clone)]
pub struct RawRule {
    pub match_pattern: Option<String>,
    pub to: String,
    pub mode: Option<Mode>,
    pub name: Option<String>,
    pub mime: Vec<String>,
    pub min_size: Option<String>,
    pub max_size: Option<String>,
}

/// One `[[folder]]` as written.
#[derive(Debug, Clone)]
pub struct RawFolder {
    pub path: String,
    pub options: RawOptions,
    pub ignore: RawIgnore,
    pub rules: Vec<RawRule>,
}

/// The configuration file as written.
#[derive(Debug, Clone)]
pub struct RawConfig {
    pub defaults: RawOptions,
    pub ignore: RawIgnore,
    pub folders: Vec<RawFolder>,
}

/// The first of two optional values that is present.
pub open spec fn first_of<T>(a: Option<T>, b: Option<T>) -> Option<T> {
    match a {
        Some(x) => Some(x),
        None => b,
    }
}

/// The present value, or `d`.
pub open spec fn or_default<T>(a: Option<T>, d: T) -> T {
    match a {
        Some(x) => x,
        None => d,
    }
}

/// The view of an optional string, or `d`.
pub open spec fn opt_str(a: Option<String>, d: Seq<char>) -> Seq<char> {
    match a {
        Some(x) => x@,
        None => d,
    }
}

/// Value of a decimal digit string.
pub open spec fn digits_value(s: Seq<char>) -> nat
    decreases s.len(),
{
    if s.len() == 0 {
        0
    } else {
        digits_value(s.drop_last()) * 10 + ((s.last() as u32) - ('0' as u32)) as nat
    }
}

/// A decimal digit.
pub open spec fn is_digit(c: char) -> bool {
    '0' <= c && c <= '9'
}

/// Length of the run of digits at the start of `s`.
pub open spec fn digit_run(s: Seq<char>) -> nat
    decreases s.len(),
{
    if s.len() > 0 && is_digit(s[0]) {
        1 + digit_run(s.skip(1))
    } else {
        0
    }
}

/// Length of the run of spaces at the start of `s`.
pub open spec fn space_run(s: Seq<char>) -> nat
    decreases s.len(),
{
    if s.len() > 0 && s[0] == ' ' {
        1 + space_run(s.skip(1))
    } else {
        0
    }
}

/// Bytes per unit of a size suffix (case-insensitive; binary multiples):
/// none or `B`, `K`/`KB`, `M`/`MB`, `G`/`GB`, `T`/`TB`.
pub open spec fn unit_bytes(u: Seq<char>) -> Option<nat> {
    let l = crate::text::ascii_lower_seq(u);
    if l.len() == 0 || l == seq!['b'] {
        Some(1)
    } else if l == seq!['k'] || l == seq!['k', 'b'] {
        Some(1024)
    } else if l == seq!['m'] || l == seq!['m', 'b'] {
        Some(1048576)
    } else if l == seq!['g'] || l == seq!['g', 'b'] {
        Some(1073741824)
    } else if l == seq!['t'] || l == seq!['t', 'b'] {
        Some(1099511627776)
    } else {
        None
    }
}

/// The number of bytes a size such as `500MB`, `10 KB` or `2000` stands for:
/// digits, optional spaces, an optional unit. `None` when it is malformed or
/// does not fit in 64 bits.
pub open spec fn size_spec(s: Seq<char>) -> Option<u64> {
    let k = digit_run(s) as int;
    let rest = s.skip(k);
    let unit = rest.skip(space_run(rest) as int);
    if k == 0 {
        None
    } else {
        match unit_bytes(unit) {
            Some(m) => if digits_value(s.take(k)) * m <= u64::MAX {
                Some((digits_value(s.take(k)) * m) as u64)
            } else {
                None
            },
            None => None,
        }
    }
}

/// Longer digit strings are worth at least as much.
pub proof fn lemma_digits_grow(s: Seq<char>, j: int, k: int)
    requires
        0 <= j <= k <= s.len(),
    ensures
        digits_value(s.take(j)) <= digits_value(s.take(k)),
    decreases k - j,
{
    if j < k {
        lemma_digits_grow(s, j, k - 1);
        assert(s.take(k).drop_last() =~= s.take(k - 1));
    }
}

/// Bytes per unit of a size suffix, computed.
fn unit_bytes_of(u: &[char]) -> (res: Option<u64>)
    ensures
        match unit_bytes(u@) {
            Some(m) => res == Some(m as u64),
            None => res.is_none(),
        },
{
    let l = crate::text::lower_chars(u);
    let ghost lv = crate::text::ascii_lower_seq(u@);
    assert(l@ == lv);
    if l.len() == 0 {
        return Some(1);
    }
    if l.len() > 2 || (l.len() == 2 && l[1] != 'b') {
        proof {
            if l.len() == 2 {
                assert(lv != seq!['k', 'b'] && lv != seq!['m', 'b'] && lv != seq!['g', 'b'] && lv
                    != seq!['t', 'b']) by {
                    assert(lv[1] != 'b');
                }
            }
        }
        assert(lv != seq!['b'] && lv != seq!['k'] && lv != seq!['m'] && lv != seq!['g'] && lv
            != seq!['t']) by {
            if lv.len() != 1 {
            }
        }
        return None;
    }
    let c = l[0];
    if l.len() == 1 {
        assert(lv =~= seq![c]);
        if c == 'b' {
            Some(1)
        } else if c == 'k' {
            Some(1024)
        } else if c == 'm' {
            Some(1048576)
        } else if c == 'g' {
            Some(1073741824)
        } else if c == 't' {
            Some(1099511627776)
        } else {
            None
        }
    } else {
        assert(lv =~= seq![c, 'b']);
        assert(lv != seq!['b'] && lv != seq!['k'] && lv != seq!['m'] && lv != seq!['g'] && lv
            != seq!['t']);
        if c == 'k' {
            Some(1024)
        } else if c == 'm' {
            Some(1048576)
        } else if c == 'g' {
            Some(1073741824)
        } else if c == 't' {
            Some(1099511627776)
        } else {
            assert(lv != seq!['k', 'b'] && lv != seq!['m', 'b'] && lv != seq!['g', 'b'] && lv
                != seq!['t', 'b']);
            None
        }
    }
}

/// Parses a size such as `500MB`, `10 KB` or `2000` into bytes.
pub fn parse_size(s: &str) -> (res: Option<u64>)
    ensures
        res == size_spec(s@),
{
    let cs = to_chars(s);
    let n = cs.len();
    let mut k: usize = 0;
    let mut value: u64 = 0;
    let mut overflow = false;
    assert(cs@.skip(0) =~= cs@);
    assert(cs@.take(0) =~= Seq::<char>::empty());
    while k < n && '0' <= cs[k] && cs[k] <= '9'
        invariant
            k <= n,
            n == cs.len(),
            cs@ == s@,
            digit_run(cs@) == k + digit_run(cs@.skip(k as int)),
            forall|i: int| 0 <= i < k ==> is_digit(cs@[i]),
            !overflow ==> value == digits_value(cs@.take(k as int)),
            overflow ==> digits_value(cs@.take(k as int)) > u64::MAX,
        decreases n - k,
    {
        assert(cs@.skip(k as int).skip(1) =~= cs@.skip(k + 1));
        assert(cs@.take(k + 1).drop_last() =~= cs@.take(k as int));
        let d: u64 = ((cs[k] as u32) - ('0' as u32)) as u64;
        if !overflow {
            match value.checked_mul(10) {
                Some(v10) => match v10.checked_add(d) {
                    Some(v) => {
                        value = v;
                    },
                    None => {
                        overflow = true;
                    },
                },
                None => {
                    overflow = true;
                },
            }
        } else {
            proof {
                lemma_digits_grow(cs@, k as int, k + 1);
            }
        }
        k = k + 1;
    }
    assert(digit_run(cs@.skip(k as int)) == 0);
    if k == 0 {
        return None;
    }
    let mut j: usize = k;
    while j < n && cs[j] == ' '
        invariant
            k <= j <= n,
            n == cs.len(),
            space_run(cs@.skip(k as int)) == (j - k) + space_run(cs@.skip(j as int)),
        decreases n - j,
    {
        assert(cs@.skip(j as int).skip(1) =~= cs@.skip(j + 1));
        j = j + 1;
    }
    assert(space_run(cs@.skip(j as int)) == 0);
    assert(cs@.skip(k as int).skip((j - k) as int) =~= cs@.skip(j as int));
    let unit = &cs.as_slice()[j..n];
    assert(unit@ =~= cs@.skip(j as int));
    match unit_bytes_of(unit) {
        Some(m) => {
            if overflow {
                proof {
                    vstd::arithmetic::mul::lemma_mul_inequality(
                        u64::MAX as int + 1,
                        digits_value(cs@.take(k as int)) as int,
                        m as int,
                    );
                }
                return None;
            }
            match value.checked_mul(m) {
                Some(v) => Some(v),
                None => None,
            }
        },
        None => None,
    }
}

/// The size a raw size setting stands for (absent when unset).
pub open spec fn size_value(s: Option<String>) -> Option<u64> {
    match s {
        Some(x) => size_spec(x@),
        None => None,
    }
}

/// The first malformed size setting of a rule, if any.
pub open spec fn rule_size_error(r: RawRule) -> Option<Seq<char>> {
    if r.min_size is Some && size_spec(r.min_size->0@).is_none() {
        Some(r.min_size->0@)
    } else if r.max_size is Some && size_spec(r.max_size->0@).is_none() {
        Some(r.max_size->0@)
    } else {
        None
    }
}

/// The first malformed size setting among rules, in order.
pub open spec fn rules_size_error(rs: Seq<RawRule>) -> Option<Seq<char>>
    decreases rs.len(),
{
    if rs.len() == 0 {
        None
    } else if rule_size_error(rs[0]).is_some() {
        rule_size_error(rs[0])
    } else {
        rules_size_error(rs.skip(1))
    }
}

/// The first malformed size setting among folders, in order.
pub open spec fn folders_size_error(fs: Seq<RawFolder>) -> Option<Seq<char>>
    decreases fs.len(),
{
    if fs.len() == 0 {
        None
    } else if rules_size_error(fs[0].rules@).is_some() {
        rules_size_error(fs[0].rules@)
    } else {
        folders_size_error(fs.skip(1))
    }
}

/// With no error among the first `j` rules, the first error is the first
/// one from rule `j` on.
pub proof fn lemma_rules_error_from(rs: Seq<RawRule>, j: int)
    requires
        0 <= j < rs.len(),
        forall|i: int| 0 <= i < j ==> rule_size_error(#[trigger] rs[i]).is_none(),
    ensures
        rules_size_error(rs) == (if rule_size_error(rs[j]).is_some() {
            rule_size_error(rs[j])
        } else {
            rules_size_error(rs.skip(j + 1))
        }),
    decreases j,
{
    if j > 0 {
        assert(rule_size_error(rs[0]).is_none());
        let t = rs.skip(1);
        assert forall|i: int| 0 <= i < j - 1 implies rule_size_error(#[trigger] t[i]).is_none() by {
            assert(t[i] == rs[i + 1]);
        }
        lemma_rules_error_from(t, j - 1);
        assert(t.skip(j) =~= rs.skip(j + 1));
    }
}

/// With no error in any rule, there is no first error.
pub proof fn lemma_rules_no_error(rs: Seq<RawRule>)
    requires
        forall|i: int| 0 <= i < rs.len() ==> rule_size_error(#[trigger] rs[i]).is_none(),
    ensures
        rules_size_error(rs).is_none(),
    decreases rs.len(),
{
    if rs.len() > 0 {
        let t = rs.skip(1);
        assert forall|i: int| 0 <= i < t.len() implies rule_size_error(#[trigger] t[i]).is_none() by {
            assert(t[i] == rs[i + 1]);
        }
        lemma_rules_no_error(t);
    }
}

/// With no error in the first `j` folders, the first error is the first
/// one from folder `j` on.
pub proof fn lemma_folders_error_from(fs: Seq<RawFolder>, j: int)
    requires
        0 <= j < fs.len(),
        forall|i: int| 0 <= i < j ==> rules_size_error(#[trigger] fs[i].rules@).is_none(),
    ensures
        folders_size_error(fs) == (if rules_size_error(fs[j].rules@).is_some() {
            rules_size_error(fs[j].rules@)
        } else {
            folders_size_error(fs.skip(j + 1))
        }),
    decreases j,
{
    if j > 0 {
        let t = fs.skip(1);
        assert forall|i: int| 0 <= i < j - 1 implies rules_size_error(
            #[trigger] t[i].rules@,
        ).is_none() by {
            assert(t[i] == fs[i + 1]);
        }
        assert(rules_size_error(fs[0].rules@).is_none());
        lemma_folders_error_from(t, j - 1);
        assert(t.skip(j) =~= fs.skip(j + 1));
    }
}

/// With no error in any folder, there is no first error.
pub proof fn lemma_folders_no_error(fs: Seq<RawFolder>)
    requires
        forall|i: int| 0 <= i < fs.len() ==> rules_size_error(#[trigger] fs[i].rules@).is_none(),
    ensures
        folders_size_error(fs).is_none(),
    decreases fs.len(),
{
    if fs.len() > 0 {
        let t = fs.skip(1);
        assert forall|i: int| 0 <= i < t.len() implies rules_size_error(
            #[trigger] t[i].rules@,
        ).is_none() by {
            assert(t[i] == fs[i + 1]);
        }
        lemma_folders_no_error(t);
    }
}

/// The effective rule for a raw rule whose folder's mode is `mode`: the
/// pattern defaults to empty, the name to the pattern, the mode to the
/// folder's; the destination has its variables expanded.
pub open spec fn rule_view(r: RawRule, mode: Mode, env: Seq<(String, String)>) -> RuleView {
    let pattern = opt_str(r.match_pattern, seq![]);
    RuleView {
        match_pattern: pattern,
        name: opt_str(r.name, pattern),
        to: expand_env_spec(r.to@, env),
        mode: or_default(r.mode, mode),
        mime_patterns: string_views(r.mime@),
        min_size: size_value(r.min_size),
        max_size: size_value(r.max_size),
    }
}

/// The catch-all rule of a folder that lists none.
pub open spec fn fallback_rule(to: Seq<char>, mode: Mode) -> RuleView {
    RuleView {
        match_pattern: "*"@,
        name: "fallback"@,
        to: to,
        mode: mode,
        mime_patterns: seq![],
        min_size: None,
        max_size: None,
    }
}

/// The effective mode of a folder: its own, else the default, else move.
pub open spec fn folder_mode(f: RawFolder, g: RawOptions) -> Mode {
    or_default(first_of(f.options.mode, g.mode), Mode::Move)
}

/// The effective options of a folder: its own settings, else the defaults,
/// else a wait of five seconds, no overwriting, no directories.
pub open spec fn folder_options(f: RawFolder, g: RawOptions) -> Options {
    Options {
        wait: or_default(first_of(f.options.wait, g.wait), 5),
        overwrite: or_default(first_of(f.options.overwrite, g.overwrite), false),
        include_dirs: or_default(first_of(f.options.include_dirs, g.include_dirs), false),
    }
}

/// The destination of a folder's catch-all rule: its own `to`, else the
/// default `to`, else `organized` inside the folder; variables expanded.
pub open spec fn folder_to(f: RawFolder, g: RawOptions, env: Seq<(String, String)>) -> Seq<char> {
    let path = expand_env_spec(f.path@, env);
    let to = match first_of(f.options.to, g.to) {
        Some(t) => t@,
        None => join(path, "organized"@),
    };
    expand_env_spec(to, env)
}

/// The effective settings of one folder.
pub open spec fn folder_view(
    f: RawFolder,
    g: RawOptions,
    g_ignore: Seq<String>,
    env: Seq<(String, String)>,
) -> FolderView {
    let mode = folder_mode(f, g);
    FolderView {
        path: expand_env_spec(f.path@, env),
        options: folder_options(f, g),
        ignore_patterns: string_views(g_ignore) + string_views(f.ignore.matches@),
        rules: if f.rules@.len() == 0 {
            seq![fallback_rule(folder_to(f, g, env), mode)]
        } else {
            f.rules@.map_values(|r: RawRule| rule_view(r, mode, env))
        },
    }
}

/// The effective configuration, or the message of the error that refuses
/// the file: no folder at all, or a malformed size (the first, in order).
pub open spec fn resolve_spec(raw: RawConfig, env: Seq<(String, String)>) -> Result<
    Seq<FolderView>,
    Seq<char>,
> {
    if raw.folders@.len() == 0 {
        Err("no [[folder]] dirs defined"@)
    } else {
        match folders_size_error(raw.folders@) {
            Some(bad) => Err("invalid size: "@ + bad),
            None => Ok(
                raw.folders@.map_values(
                    |f: RawFolder| folder_view(f, raw.defaults, raw.ignore.matches@, env),
                ),
            ),
        }
    }
}

/// A copy of a list of strings.
pub fn copy_strings(v: &Vec<String>) -> (out: Vec<String>)
    ensures
        string_views(out@) == string_views(v@),
        out@.len() == v@.len(),
        forall|k: int| 0 <= k < v@.len() ==> (#[trigger] out@[k])@ == v@[k]@,
{
    let mut out: Vec<String> = Vec::new();
    let mut i: usize = 0;
    while i < v.len()
        invariant
            i <= v.len(),
            out@.len() == i,
            forall|k: int| 0 <= k < i ==> (#[trigger] out@[k])@ == v@[k]@,
        decreases v.len() - i,
    {
        out.push(v[i].clone());
        i = i + 1;
    }
    assert(string_views(out@) =~= string_views(v@));
    out
}

/// The message for a malformed size.
fn size_error(bad: &String) -> (msg: String)
    ensures
        msg@ == "invalid size: "@ + bad@,
{
    let mut m = to_chars("invalid size: ");
    let b = to_chars(bad.as_str());
    extend_chars(&mut m, b.as_slice());
    from_chars(m.as_slice())
}

fn parse_size_setting(s: &Option<String>) -> (res: Result<Option<u64>, String>)
    ensures
        match s {
            Some(x) => match size_spec(x@) {
                Some(v) => res == Ok::<Option<u64>, String>(Some(v)),
                None => res.is_err() && res->Err_0@ == "invalid size: "@ + x@,
            },
            None => res == Ok::<Option<u64>, String>(None),
        },
{
    match s {
        Some(x) => match parse_size(x.as_str()) {
            Some(v) => Ok(Some(v)),
            None => Err(size_error(x)),
        },
        None => Ok(None),
    }
}

/// The effective rule for a raw rule, or the error for its first malformed
/// size.
fn resolve_rule(r: &RawRule, mode: Mode, env: &Vec<(String, String)>) -> (res: Result<
    Rule,
    String,
>)
    ensures
        match rule_size_error(*r) {
            Some(bad) => res.is_err() && res->Err_0@ == "invalid size: "@ + bad,
            None => res.is_ok() && res->Ok_0@ == rule_view(*r, mode, env@),
        },
{
    let min_size = match parse_size_setting(&r.min_size) {
        Ok(v) => v,
        Err(e) => return Err(e),
    };
    let max_size = match parse_size_setting(&r.max_size) {
        Ok(v) => v,
        Err(e) => return Err(e),
    };
    let pattern: String = match &r.match_pattern {
        Some(p) => p.clone(),
        None => String::new(),
    };
    let name: String = match &r.name {
        Some(n) => n.clone(),
        None => pattern.clone(),
    };
    let rule_mode = match r.mode {
        Some(m) => m,
        None => mode,
    };
    let rule = Rule {
        match_pattern: pattern,
        name,
        to: expand_env(r.to.as_str(), env),
        mode: rule_mode,
        mime_patterns: copy_strings(&r.mime),
        min_size,
        max_size,
    };
    assert(rule@ =~= rule_view(*r, mode, env@));
    Ok(rule)
}

/// The effective settings of one folder, or the error for its first
/// malformed size.
fn resolve_folder(
    f: &RawFolder,
    g: &RawOptions,
    g_ignore: &Vec<String>,
    env: &Vec<(String, String)>,
) -> (res: Result<Folder, String>)
    ensures
        match rules_size_error(f.rules@) {
            Some(bad) => res.is_err() && res->Err_0@ == "invalid size: "@ + bad,
            None => res.is_ok() && res->Ok_0@ == folder_view(*f, *g, g_ignore@, env@),
        },
{
    let path = expand_env(f.path.as_str(), env);
    let mode: Mode = match f.options.mode {
        Some(m) => m,
        None => match g.mode {
            Some(m) => m,
            None => Mode::Move,
        },
    };
    let options = Options {
        wait: match f.options.wait {
            Some(w) => w,
            None => match g.wait {
                Some(w) => w,
                None => 5,
            },
        },
        overwrite: match f.options.overwrite {
            Some(o) => o,
            None => match g.overwrite {
                Some(o) => o,
                None => false,
            },
        },
        include_dirs: match f.options.include_dirs {
            Some(d) => d,
            None => match g.include_dirs {
                Some(d) => d,
                None => false,
            },
        },
    };
    let mut rules: Vec<Rule> = Vec::new();
    let mut j: usize = 0;
    while j < f.rules.len()
        invariant
            j <= f.rules.len(),
            mode == folder_mode(*f, *g),
            rules@.len() == j,
            forall|k: int| 0 <= k < j ==> (#[trigger] rules@[k])@ == rule_view(f.rules@[k], mode, env@),
            forall|i: int| 0 <= i < j ==> rule_size_error(#[trigger] f.rules@[i]).is_none(),
        decreases f.rules.len() - j,
    {
        proof {
            lemma_rules_error_from(f.rules@, j as int);
        }
        match resolve_rule(&f.rules[j], mode, env) {
            Ok(rule) => {
                rules.push(rule);
            },
            Err(e) => {
                return Err(e);
            },
        }
        j = j + 1;
    }
    proof {
        lemma_rules_no_error(f.rules@);
    }
    assert(rules@.map_values(|r: Rule| r@) =~= f.rules@.map_values(
        |r: RawRule| rule_view(r, mode, env@),
    ));
    if rules.len() == 0 {
        let to_src: Vec<char> = match &f.options.to {
            Some(t) => to_chars(t.as_str()),
            None => match &g.to {
                Some(t) => to_chars(t.as_str()),
                None => {
                    let p = to_chars(path.as_str());
                    let o = to_chars("organized");
                    crate::path::join_paths(p.as_slice(), o.as_slice())
                },
            },
        };
        let to_text = from_chars(to_src.as_slice());
        let eff_to = expand_env(to_text.as_str(), env);
        rules.push(
            Rule {
                match_pattern: String::from_str("*"),
                name: String::from_str("fallback"),
                to: eff_to,
                mode,
                mime_patterns: Vec::new(),
                min_size: None,
                max_size: None,
            },
        );
        assert(rules@[0]@ =~= fallback_rule(folder_to(*f, *g, env@), mode));
        assert(rules@.map_values(|r: Rule| r@) =~= seq![
            fallback_rule(folder_to(*f, *g, env@), mode),
        ]);
    }
    let mut ignore_patterns = copy_strings(g_ignore);
    let local = copy_strings(&f.ignore.matches);
    let mut k: usize = 0;
    let ghost base = ignore_patterns@;
    assert(forall|t: int| 0 <= t < base.len() ==> base[t]@ == #[trigger] string_views(g_ignore@)[t]);
    while k < local.len()
        invariant
            k <= local.len(),
            ignore_patterns@.len() == base.len() + k,
            forall|t: int| 0 <= t < base.len() ==> (#[trigger] ignore_patterns@[t]) == base[t],
            forall|t: int|
                0 <= t < k ==> (#[trigger] ignore_patterns@[base.len() + t])@ == local@[t]@,
        decreases local.len() - k,
    {
        ignore_patterns.push(local[k].clone());
        k = k + 1;
    }
    assert(string_views(ignore_patterns@) =~= string_views(g_ignore@) + string_views(
        f.ignore.matches@,
    )) by {
        assert forall|t: int| 0 <= t < ignore_patterns@.len() implies string_views(
            ignore_patterns@,
        )[t] == (string_views(g_ignore@) + string_views(f.ignore.matches@))[t] by {
            if t < base.len() {
                assert(ignore_patterns@[t] == base[t]);
                assert(string_views(base)[t] == string_views(g_ignore@)[t]);
            } else {
                assert(ignore_patterns@[base.len() + (t - base.len())]@ == local@[t - base.len()]@);
            }
        }
    }
    let folder = Folder { path, options, ignore_patterns, rules };
    assert(folder@ =~= folder_view(*f, *g, g_ignore@, env@));
    Ok(folder)
}

/// Combines the raw configuration into the effective one: each folder's
/// settings fall back to `[defaults]`, each rule's to its folder's; a folder
/// without rules gets a catch-all rule; global ignore patterns precede the
/// folder's own. Variables in paths are expanded from `env`.
pub fn resolve(raw: RawConfig, env: &Vec<(String, String)>) -> (res: Result<Config, String>)
    ensures
        match resolve_spec(raw, env@) {
            Ok(folders) => res.is_ok() && res->Ok_0@ == folders,
            Err(msg) => res.is_err() && res->Err_0@ == msg,
        },
{
    if raw.folders.len() == 0 {
        return Err(String::from_str("no [[folder]] dirs defined"));
    }
    let mut folders: Vec<Folder> = Vec::new();
    let mut i: usize = 0;
    while i < raw.folders.len()
        invariant
            i <= raw.folders.len(),
            folders@.len() == i,
            forall|k: int|
                0 <= k < i ==> (#[trigger] folders@[k])@ == folder_view(
                    raw.folders@[k],
                    raw.defaults,
                    raw.ignore.matches@,
                    env@,
                ),
            forall|k: int| 0 <= k < i ==> rules_size_error(#[trigger] raw.folders@[k].rules@).is_none(),
        decreases raw.folders.len() - i,
    {
        proof {
            lemma_folders_error_from(raw.folders@, i as int);
        }
        match resolve_folder(&raw.folders[i], &raw.defaults, &raw.ignore.matches, env) {
            Ok(folder) => {
                folders.push(folder);
            },
            Err(e) => {
                return Err(e);
            },
        }
        i = i + 1;
    }
    proof {
        lemma_folders_no_error(raw.folders@);
    }
    assert(folders@.map_values(|f: Folder| f@) =~= raw.folders@.map_values(
        |f: RawFolder| folder_view(f, raw.defaults, raw.ignore.matches@, env@),
    ));
    Ok(Config { folders })
}

/// Every effective folder has a rule: its own rules, in order, or else the
/// single catch-all rule.
pub proof fn lemma_every_folder_has_rules(raw: RawConfig, env: Seq<(String, String)>, i: int)
    requires
        resolve_spec(raw, env) is Ok,
        0 <= i < raw.folders@.len(),
    ensures
        ({
            let f = resolve_spec(raw, env)->Ok_0[i];
            let r = raw.folders@[i];
            &&& f.rules.len() >= 1
            &&& r.rules@.len() == 0 ==> f.rules == seq![
                fallback_rule(folder_to(r, raw.defaults, env), folder_mode(r, raw.defaults)),
            ]
            &&& r.rules@.len() > 0 ==> f.rules.len() == r.rules@.len()
        }),
{
}

/// How settings combine, stated over the raw file: for every folder `i` of
/// a configuration that resolves,
/// - its path is the folder's own path with variables expanded;
/// - each option is the folder's own setting when it gives one, else the
///   `[defaults]` setting, else a wait of 5 seconds, no overwriting, no
///   directories;
/// - its ignore patterns are the global ones followed by its own;
/// - with rules of its own, each keeps its pattern, expands its `to`,
///   takes its own mode, else the folder's, else the default one, else
///   move, and is named by its `name`, else its pattern;
/// - with none, its single catch-all rule `*`, named `fallback`, goes to
///   the folder's own `to` when set (whatever `[defaults]` says), else the
///   default `to`, else `organized` inside the folder, variables expanded.
pub proof fn lemma_settings_precedence(raw: RawConfig, env: Seq<(String, String)>, i: int)
    requires
        resolve_spec(raw, env) is Ok,
        0 <= i < raw.folders@.len(),
    ensures
        ({
            let out = resolve_spec(raw, env)->Ok_0[i];
            let f = raw.folders@[i];
            let g = raw.defaults;
            let mode = match f.options.mode {
                Some(m) => m,
                None => match g.mode {
                    Some(m) => m,
                    None => Mode::Move,
                },
            };
            &&& out.path == expand_env_spec(f.path@, env)
            &&& out.options.wait == match f.options.wait {
                Some(w) => w,
                None => match g.wait {
                    Some(w) => w,
                    None => 5,
                },
            }
            &&& out.options.overwrite == match f.options.overwrite {
                Some(b) => b,
                None => match g.overwrite {
                    Some(b) => b,
                    None => false,
                },
            }
            &&& out.options.include_dirs == match f.options.include_dirs {
                Some(b) => b,
                None => match g.include_dirs {
                    Some(b) => b,
                    None => false,
                },
            }
            &&& out.ignore_patterns.len() == raw.ignore.matches@.len() + f.ignore.matches@.len()
            &&& forall|k: int|
                0 <= k < raw.ignore.matches@.len() ==> out.ignore_patterns[k]
                    == (#[trigger] raw.ignore.matches@[k])@
            &&& forall|k: int|
                0 <= k < f.ignore.matches@.len() ==> out.ignore_patterns[raw.ignore.matches@.len()
                    + k] == (#[trigger] f.ignore.matches@[k])@
            &&& f.rules@.len() == 0 ==> {
                &&& out.rules.len() == 1
                &&& out.rules[0].match_pattern == "*"@
                &&& out.rules[0].name == "fallback"@
                &&& out.rules[0].mode == mode
                &&& out.rules[0].to == match f.options.to {
                    Some(t) => expand_env_spec(t@, env),
                    None => match g.to {
                        Some(t) => expand_env_spec(t@, env),
                        None => expand_env_spec(
                            join(expand_env_spec(f.path@, env), "organized"@),
                            env,
                        ),
                    },
                }
            }
            &&& f.rules@.len() > 0 ==> {
                &&& out.rules.len() == f.rules@.len()
                &&& forall|j: int|
                    #![trigger f.rules@[j]]
                    0 <= j < f.rules@.len() ==> {
                        let r = f.rules@[j];
                        let pattern = match r.match_pattern {
                            Some(m) => m@,
                            None => seq![],
                        };
                        &&& out.rules[j].match_pattern == pattern
                        &&& out.rules[j].name == match r.name {
                            Some(n) => n@,
                            None => pattern,
                        }
                        &&& out.rules[j].to == expand_env_spec(r.to@, env)
                        &&& out.rules[j].mode == match r.mode {
                            Some(m) => m,
                            None => mode,
                        }
                    }
            }
        }),
{
    let out = resolve_spec(raw, env)->Ok_0[i];
    let f = raw.folders@[i];
    assert(out == folder_view(f, raw.defaults, raw.ignore.matches@, env));
}

} // verus!
