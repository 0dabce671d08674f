//! Rule matching for one watched folder, and destination resolution.
use vstd::prelude::*;

use crate::calendar::{civil_date, civil_from_days, SECS_PER_DAY};
use crate::config::{copy_strings, string_views, Folder, Mode, Rule};
use crate::glob::{glob_compiles, glob_fits, glob_matches, Matcher, MAX_GLOB_BRACES, MAX_GLOB_CHARS};
use crate::mime::{matches_mime_pattern, mime_pattern_matches};
use crate::text::{
    count_of, is_prefix,
    decimal, extend_chars, from_chars, padded_decimal, replace_all, replace_chars, to_chars,
    zero_pad,
};
use vstd::string::StringExecFns;

verus! {

/// The placeholder text for a date: `{year}`, `{YYYY}`, `{month}`, `{MM}`,
/// `{day}`, `{DD}`, `{date}` and `{YYYY-MM-DD}` are replaced, in that order,
/// by the zero-padded year (at least four digits), month, day and
/// `year-month-day`.
pub open spec fn date_text(s: Seq<char>, y: int, m: int, d: int) -> Seq<char> {
    let year = zero_pad(decimal(y as nat), 4);
    let month = zero_pad(decimal(m as nat), 2);
    let day = zero_pad(decimal(d as nat), 2);
    let date = year + seq!['-'] + month + seq!['-'] + day;
    let s1 = replace_all(s, "{year}"@, year);
    let s2 = replace_all(s1, "{YYYY}"@, year);
    let s3 = replace_all(s2, "{month}"@, month);
    let s4 = replace_all(s3, "{MM}"@, month);
    let s5 = replace_all(s4, "{day}"@, day);
    let s6 = replace_all(s5, "{DD}"@, day);
    let s7 = replace_all(s6, "{date}"@, date);
    replace_all(s7, "{YYYY-MM-DD}"@, date)
}

/// `s` with its date placeholders filled in for the UTC day that holds the
/// instant `secs` seconds after the Unix epoch.
pub open spec fn placeholders_at(s: Seq<char>, secs: nat) -> Seq<char> {
    let (y, m, d) = civil_date(secs / 86400);
    date_text(s, y, m, d)
}

fn replace_lit(s: &[char], p: &str, r: &[char]) -> (out: Vec<char>)
    requires
        p@.len() > 0,
    ensures
        out@ == replace_all(s@, p@, r@),
{
    let pc = to_chars(p);
    replace_chars(s, pc.as_slice(), r)
}

/// Fills in the date placeholders of `s` for the UTC day of the instant
/// `secs` seconds after the Unix epoch (a time before the epoch is given
/// as 0).
pub fn expand_date_placeholders(s: &str, secs: u64) -> (out: String)
    ensures
        out@ == placeholders_at(s@, secs as nat),
{
    let (y, m, d) = civil_from_days(secs / SECS_PER_DAY);
    let year = padded_decimal(y, 4);
    let month = padded_decimal(m, 2);
    let day = padded_decimal(d, 2);
    let mut date: Vec<char> = Vec::new();
    extend_chars(&mut date, year.as_slice());
    date.push('-');
    extend_chars(&mut date, month.as_slice());
    date.push('-');
    extend_chars(&mut date, day.as_slice());
    assert(date@ =~= year@ + seq!['-'] + month@ + seq!['-'] + day@);
    proof {
        reveal_strlit("{year}");
        reveal_strlit("{YYYY}");
        reveal_strlit("{month}");
        reveal_strlit("{MM}");
        reveal_strlit("{day}");
        reveal_strlit("{DD}");
        reveal_strlit("{date}");
        reveal_strlit("{YYYY-MM-DD}");
    }
    let s0 = to_chars(s);
    let s1 = replace_lit(s0.as_slice(), "{year}", year.as_slice());
    let s2 = replace_lit(s1.as_slice(), "{YYYY}", year.as_slice());
    let s3 = replace_lit(s2.as_slice(), "{month}", month.as_slice());
    let s4 = replace_lit(s3.as_slice(), "{MM}", month.as_slice());
    let s5 = replace_lit(s4.as_slice(), "{day}", day.as_slice());
    let s6 = replace_lit(s5.as_slice(), "{DD}", day.as_slice());
    let s7 = replace_lit(s6.as_slice(), "{date}", date.as_slice());
    let s8 = replace_lit(s7.as_slice(), "{YYYY-MM-DD}", date.as_slice());
    from_chars(s8.as_slice())
}

/// Ignore patterns that apply in every folder: partial downloads and
/// temporary files.
pub open spec fn builtin_ignores() -> Seq<Seq<char>> {
    seq!["*.part"@, "*.tmp"@]
}

/// The patterns among `ps` that compile, in order.
pub open spec fn compiled_patterns(ps: Seq<Seq<char>>) -> Seq<Seq<char>>
    decreases ps.len(),
{
    if ps.len() == 0 {
        seq![]
    } else {
        let prev = compiled_patterns(ps.drop_last());
        if glob_compiles(ps.last()) {
            prev.push(ps.last())
        } else {
            prev
        }
    }
}

/// The glob of a rule, when it has a pattern that compiles.
pub open spec fn rule_glob(pattern: Seq<char>) -> Option<Seq<char>> {
    if pattern.len() > 0 && glob_compiles(pattern) {
        Some(pattern)
    } else {
        None
    }
}

/// The mathematical content of a compiled rule.
#[verifier::ext_equal]
pub struct CompiledRuleView {
    pub glob: Option<Seq<char>>,
    pub name: Seq<char>,
    pub dest: Seq<char>,
    pub mode: Mode,
    pub mime_patterns: Seq<Seq<char>>,
    pub min_size: Option<u64>,
    pub max_size: Option<u64>,
}

/// A rule ready to be matched against files.
pub struct CompiledRule {
    matcher: Option<Matcher>,
    name: String,
    dest: String,
    mode: Mode,
    mime_patterns: Vec<String>,
    min_size: Option<u64>,
    max_size: Option<u64>,
}

impl View for CompiledRule {
    type V = CompiledRuleView;

    closed spec fn view(&self) -> CompiledRuleView {
        CompiledRuleView {
            glob: match self.matcher {
                Some(m) => Some(m.pattern()),
                None => None,
            },
            name: self.name@,
            dest: self.dest@,
            mode: self.mode,
            mime_patterns: string_views(self.mime_patterns@),
            min_size: self.min_size,
            max_size: self.max_size,
        }
    }
}

/// The compiled form of a configured rule.
pub open spec fn compiled_rule(r: crate::config::RuleView) -> CompiledRuleView {
    CompiledRuleView {
        glob: rule_glob(r.match_pattern),
        name: r.name,
        dest: r.to,
        mode: r.mode,
        mime_patterns: r.mime_patterns,
        min_size: r.min_size,
        max_size: r.max_size,
    }
}

/// Whether a rule takes a file with name `name`, size `size` (bytes) and
/// detected MIME type `mime`: the size lies within the rule's bounds, and
/// the glob matches the name or else one of the MIME patterns matches.
pub open spec fn rule_accepts(
    r: CompiledRuleView,
    name: Seq<char>,
    size: u64,
    mime: Option<Seq<char>>,
) -> bool {
    &&& (r.min_size matches Some(min) ==> size >= min)
    &&& (r.max_size matches Some(max) ==> size <= max)
    &&& {
        ||| (r.glob matches Some(p) && glob_matches(p, name))
        ||| (r.mime_patterns.len() > 0 && mime is Some && exists|k: int|
            0 <= k < r.mime_patterns.len() && mime_pattern_matches(
                mime->0,
                #[trigger] r.mime_patterns[k],
            ))
    }
}

/// Index of the first rule that takes the file.
pub open spec fn first_accepting(
    rules: Seq<CompiledRuleView>,
    name: Seq<char>,
    size: u64,
    mime: Option<Seq<char>>,
) -> Option<int>
    decreases rules.len(),
{
    if rules.len() == 0 {
        None
    } else if rule_accepts(rules[0], name, size, mime) {
        Some(0)
    } else {
        match first_accepting(rules.skip(1), name, size, mime) {
            Some(i) => Some(i + 1),
            None => None,
        }
    }
}

/// The mathematical content of a folder's compiled rules.
#[verifier::ext_equal]
pub struct FolderRulesView {
    pub rules: Seq<CompiledRuleView>,
    pub ignore: Seq<Seq<char>>,
}

/// The compiled rules and ignore patterns of one watched folder.
pub struct FolderRules {
    rules: Vec<CompiledRule>,
    ignore: Vec<Matcher>,
}

impl View for FolderRules {
    type V = FolderRulesView;

    closed spec fn view(&self) -> FolderRulesView {
        FolderRulesView {
            rules: self.rules@.map_values(|r: CompiledRule| r@),
            ignore: self.ignore@.map_values(|m: Matcher| m.pattern()),
        }
    }
}

/// What building a folder's rules gives: every rule compiled, in order;
/// the folder's ignore patterns followed by the built-in ones, keeping
/// those that compile.
pub open spec fn build_spec(f: crate::config::FolderView) -> FolderRulesView {
    FolderRulesView {
        rules: f.rules.map_values(|r: crate::config::RuleView| compiled_rule(r)),
        ignore: compiled_patterns(f.ignore_patterns + builtin_ignores()),
    }
}

/// Compiles a non-empty glob; an empty pattern or one that does not
/// compile gives no matcher.
fn glob(p: &str) -> (res: Option<Matcher>)
    requires
        glob_fits(p@),
    ensures
        match rule_glob(p@) {
            Some(q) => res is Some && res->0.pattern() == q,
            None => res is None,
        },
{
    let cs = to_chars(p);
    if cs.len() == 0 {
        return None;
    }
    Matcher::compile(p)
}

fn compile_rule(r: &Rule) -> (c: CompiledRule)
    requires
        glob_fits(r@.match_pattern),
    ensures
        c@ == compiled_rule(r@),
{
    let c = CompiledRule {
        matcher: glob(r.match_pattern.as_str()),
        name: r.name.clone(),
        dest: r.to.clone(),
        mode: r.mode,
        mime_patterns: copy_strings(&r.mime_patterns),
        min_size: r.min_size,
        max_size: r.max_size,
    };
    assert(c@ =~= compiled_rule(r@));
    c
}

impl CompiledRule {
    /// The destination for a file last modified `mtime_secs` seconds after
    /// the Unix epoch: the rule's destination, with its date placeholders
    /// filled in for that day when it holds both `{` and `}`.
    pub fn resolve_dest(&self, mtime_secs: u64) -> (out: String)
        ensures
            (crate::text::contains_seq(self@.dest, seq!['{']) && crate::text::contains_seq(
                self@.dest,
                seq!['}'],
            )) ==> out@ == placeholders_at(self@.dest, mtime_secs as nat),
            !(crate::text::contains_seq(self@.dest, seq!['{']) && crate::text::contains_seq(
                self@.dest,
                seq!['}'],
            )) ==> out@ == self@.dest,
    {
        let d = to_chars(self.dest.as_str());
        let mut open: Vec<char> = Vec::new();
        open.push('{');
        let mut close: Vec<char> = Vec::new();
        close.push('}');
        assert(open@ =~= seq!['{']);
        assert(close@ =~= seq!['}']);
        if crate::text::contains_chars(d.as_slice(), open.as_slice())
            && crate::text::contains_chars(d.as_slice(), close.as_slice()) {
            expand_date_placeholders(self.dest.as_str(), mtime_secs)
        } else {
            self.dest.clone()
        }
    }

    /// Move or copy.
    pub fn mode(&self) -> (m: Mode)
        ensures
            m == self@.mode,
    {
        self.mode
    }

    /// The rule's name.
    pub fn name(&self) -> (n: &str)
        ensures
            n@ == self@.name,
    {
        self.name.as_str()
    }

    /// Whether the rule has a size bound.
    pub fn has_size_filter(&self) -> (b: bool)
        ensures
            b == (self@.min_size is Some || self@.max_size is Some),
    {
        self.min_size.is_some() || self.max_size.is_some()
    }

    /// Whether the rule has MIME patterns.
    pub fn has_mime_patterns(&self) -> (b: bool)
        ensures
            b == (self@.mime_patterns.len() > 0),
    {
        self.mime_patterns.len() > 0
    }

    /// Whether the rule takes the file.
    #[verifier::loop_isolation(false)]
    pub fn accepts(&self, name: &str, size: u64, mime: &Option<String>) -> (b: bool)
        ensures
            b == rule_accepts(
                self@,
                name@,
                size,
                match mime {
                    Some(m) => Some(m@),
                    None => None,
                },
            ),
    {
        if let Some(min) = self.min_size {
            if size < min {
                return false;
            }
        }
        if let Some(max) = self.max_size {
            if size > max {
                return false;
            }
        }
        if let Some(m) = &self.matcher {
            if m.is_match(name) {
                return true;
            }
        }
        if self.mime_patterns.len() > 0 {
            if let Some(detected) = mime {
                let mut k: usize = 0;
                while k < self.mime_patterns.len()
                    invariant
                        k <= self.mime_patterns.len(),
                        forall|j: int|
                            0 <= j < k ==> !mime_pattern_matches(
                                detected@,
                                #[trigger] string_views(self.mime_patterns@)[j],
                            ),
                    decreases self.mime_patterns.len() - k,
                {
                    assert(string_views(self.mime_patterns@)[k as int]
                        == self.mime_patterns@[k as int]@);
                    if matches_mime_pattern(detected.as_str(), self.mime_patterns[k].as_str()) {
                        assert(mime_pattern_matches(detected@, self@.mime_patterns[k as int]));
                        return true;
                    }
                    k = k + 1;
                }
                return false;
            }
        }
        false
    }
}

/// Every glob of the folder (rule patterns and ignore patterns) is small
/// enough to compile (see `glob_fits`).
pub open spec fn globs_fit(f: crate::config::FolderView) -> bool {
    &&& forall|k: int| 0 <= k < f.rules.len() ==> glob_fits((#[trigger] f.rules[k]).match_pattern)
    &&& forall|k: int|
        0 <= k < f.ignore_patterns.len() ==> glob_fits(#[trigger] f.ignore_patterns[k])
}

/// Whether a pattern is small enough to compile.
fn fits(p: &str) -> (b: bool)
    ensures
        b == glob_fits(p@),
{
    let cs = to_chars(p);
    cs.len() < MAX_GLOB_CHARS && crate::text::count_char(cs.as_slice(), '{') < MAX_GLOB_BRACES
}

impl FolderRules {
    /// Whether every glob of the folder is small enough to compile.
    pub fn can_build(folder: &Folder) -> (b: bool)
        ensures
            b == globs_fit(folder@),
    {
        let mut i: usize = 0;
        while i < folder.rules.len()
            invariant
                i <= folder.rules.len(),
                forall|k: int| 0 <= k < i ==> glob_fits((#[trigger] folder@.rules[k]).match_pattern),
            decreases folder.rules.len() - i,
        {
            assert(folder@.rules[i as int] == folder.rules@[i as int]@);
            if !fits(folder.rules[i].match_pattern.as_str()) {
                return false;
            }
            i = i + 1;
        }
        let mut j: usize = 0;
        while j < folder.ignore_patterns.len()
            invariant
                j <= folder.ignore_patterns.len(),
                forall|k: int| 0 <= k < folder@.rules.len() ==> glob_fits((#[trigger] folder@.rules[k]).match_pattern),
                forall|k: int| 0 <= k < j ==> glob_fits(#[trigger] folder@.ignore_patterns[k]),
            decreases folder.ignore_patterns.len() - j,
        {
            assert(folder@.ignore_patterns[j as int] == folder.ignore_patterns@[j as int]@);
            if !fits(folder.ignore_patterns[j].as_str()) {
                return false;
            }
            j = j + 1;
        }
        true
    }

    /// Compiles a folder's rules and ignore patterns.
    pub fn build(folder: &Folder) -> (res: FolderRules)
        requires
            globs_fit(folder@),
        ensures
            res@ == build_spec(folder@),
    {
        let mut rules: Vec<CompiledRule> = Vec::new();
        let mut i: usize = 0;
        while i < folder.rules.len()
            invariant
                i <= folder.rules.len(),
                rules@.len() == i,
                forall|k: int| 0 <= k < i ==> (#[trigger] rules@[k])@ == compiled_rule(
                    folder.rules@[k]@,
                ),
                globs_fit(folder@),
            decreases folder.rules.len() - i,
        {
            assert(folder@.rules[i as int] == folder.rules@[i as int]@);
            rules.push(compile_rule(&folder.rules[i]));
            i = i + 1;
        }
        let mut patterns = copy_strings(&folder.ignore_patterns);
        patterns.push(String::from_str("*.part"));
        patterns.push(String::from_str("*.tmp"));
        let ghost all = folder@.ignore_patterns + builtin_ignores();
        assert(string_views(patterns@) =~= all);
        proof {
            reveal_strlit("*.part");
            reveal_strlit("*.tmp");
        }
        assert(count_of("*.part"@, '{') == 0) by {
            reveal_with_fuel(count_of, 7);
        }
        assert(count_of("*.tmp"@, '{') == 0) by {
            reveal_with_fuel(count_of, 6);
        }
        assert(forall|k: int| 0 <= k < all.len() ==> glob_fits(#[trigger] all[k])) by {
            assert forall|k: int| 0 <= k < all.len() implies glob_fits(#[trigger] all[k]) by {
                if k >= folder@.ignore_patterns.len() {
                    assert(all[k] == builtin_ignores()[k - folder@.ignore_patterns.len()]);
                }
            }
        }
        let mut ignore: Vec<Matcher> = Vec::new();
        let mut j: usize = 0;
        while j < patterns.len()
            invariant
                j <= patterns.len(),
                string_views(patterns@) == all,
                forall|k: int| 0 <= k < all.len() ==> glob_fits(#[trigger] all[k]),
                ignore@.map_values(|m: Matcher| m.pattern()) == compiled_patterns(all.take(j as int)),
            decreases patterns.len() - j,
        {
            let ghost before = ignore@;
            assert(all.take(j + 1).drop_last() =~= all.take(j as int));
            assert(all[j as int] == patterns@[j as int]@);
            match Matcher::compile(patterns[j].as_str()) {
                Some(m) => {
                    ignore.push(m);
                    assert(ignore@.map_values(|m: Matcher| m.pattern()) =~= before.map_values(
                        |m: Matcher| m.pattern(),
                    ).push(patterns@[j as int]@));
                },
                None => {},
            }
            j = j + 1;
        }
        assert(all.take(patterns.len() as int) =~= all);
        let res = FolderRules { rules, ignore };
        assert(res@.rules =~= build_spec(folder@).rules);
        res
    }

    /// Whether a file name is matched by an ignore pattern.
    pub fn ignored(&self, name: &str) -> (b: bool)
        ensures
            b == exists|k: int| 0 <= k < self@.ignore.len() && glob_matches(
                #[trigger] self@.ignore[k],
                name@,
            ),
    {
        let mut k: usize = 0;
        while k < self.ignore.len()
            invariant
                k <= self.ignore.len(),
                forall|j: int| 0 <= j < k ==> !glob_matches(#[trigger] self@.ignore[j], name@),
            decreases self.ignore.len() - k,
        {
            if self.ignore[k].is_match(name) {
                assert(self@.ignore[k as int] == self.ignore@[k as int].pattern());
                return true;
            }
            k = k + 1;
        }
        false
    }

    /// Whether some rule has a size bound (the file size is then needed).
    pub fn uses_size(&self) -> (b: bool)
        ensures
            b == exists|k: int|
                0 <= k < self@.rules.len() && ((#[trigger] self@.rules[k]).min_size is Some
                    || self@.rules[k].max_size is Some),
    {
        let mut k: usize = 0;
        while k < self.rules.len()
            invariant
                k <= self.rules.len(),
                forall|j: int|
                    0 <= j < k ==> !((#[trigger] self@.rules[j]).min_size is Some
                        || self@.rules[j].max_size is Some),
            decreases self.rules.len() - k,
        {
            assert(self@.rules[k as int] == self.rules@[k as int]@);
            if self.rules[k].has_size_filter() {
                return true;
            }
            k = k + 1;
        }
        false
    }

    /// Whether some rule has MIME patterns (the file's type is then needed).
    pub fn uses_mime(&self) -> (b: bool)
        ensures
            b == exists|k: int|
                0 <= k < self@.rules.len() && (#[trigger] self@.rules[k]).mime_patterns.len() > 0,
    {
        let mut k: usize = 0;
        while k < self.rules.len()
            invariant
                k <= self.rules.len(),
                forall|j: int| 0 <= j < k ==> (#[trigger] self@.rules[j]).mime_patterns.len() == 0,
            decreases self.rules.len() - k,
        {
            assert(self@.rules[k as int] == self.rules@[k as int]@);
            if self.rules[k].has_mime_patterns() {
                return true;
            }
            k = k + 1;
        }
        false
    }

    /// The first rule, in configuration order, that takes the file named
    /// `name` of `size` bytes whose detected MIME type is `mime`. Within a
    /// rule the size bounds are checked first, then the glob, then the MIME
    /// patterns.
    pub fn find(&self, name: &str, size: u64, mime: &Option<String>) -> (res: Option<
        &CompiledRule,
    >)
        ensures
            match first_accepting(
                self@.rules,
                name@,
                size,
                match mime {
                    Some(m) => Some(m@),
                    None => None,
                },
            ) {
                Some(i) => res is Some && res->0@ == self@.rules[i],
                None => res is None,
            },
    {
        let ghost m = match mime {
            Some(m) => Some(m@),
            None => None,
        };
        let ghost rs = self@.rules;
        let mut k: usize = 0;
        assert(rs.skip(0) =~= rs);
        while k < self.rules.len()
            invariant
                k <= self.rules.len(),
                rs == self@.rules,
                m == match mime {
                    Some(m) => Some(m@),
                    None => None,
                },
                first_accepting(rs, name@, size, m) == match first_accepting(
                    rs.skip(k as int),
                    name@,
                    size,
                    m,
                ) {
                    Some(i) => Some(i + k),
                    None => None,
                },
            decreases self.rules.len() - k,
        {
            assert(self@.rules[k as int] == self.rules@[k as int]@);
            assert(rs.skip(k as int)[0] == self.rules@[k as int]@);
            let r = &self.rules[k];
            assert(r@ == rs.skip(k as int)[0]);
            let ok = r.accepts(name, size, mime);
            assert(ok == rule_accepts(r@, name@, size, m));
            assert(ok == rule_accepts(rs.skip(k as int)[0], name@, size, m));
            if ok {
                assert(first_accepting(rs.skip(k as int), name@, size, m) == Some(0int));
                assert(first_accepting(rs, name@, size, m) == Some(k as int));
                return Some(r);
            }
            assert(rs.skip(k as int).skip(1) =~= rs.skip(k + 1));
            assert(first_accepting(rs.skip(k as int), name@, size, m) == match first_accepting(
                rs.skip(k + 1),
                name@,
                size,
                m,
            ) {
                Some(i) => Some(i + 1),
                None => None,
            });
            k = k + 1;
        }
        None
    }
}

/// First match wins: the rule that `find` reports takes the file, and no
/// rule before it does; when it reports none, no rule takes the file.
pub proof fn lemma_first_match_wins(
    rules: Seq<CompiledRuleView>,
    name: Seq<char>,
    size: u64,
    mime: Option<Seq<char>>,
)
    ensures
        first_accepting(rules, name, size, mime) matches Some(i) ==> {
            &&& 0 <= i < rules.len()
            &&& rule_accepts(rules[i], name, size, mime)
            &&& forall|j: int| 0 <= j < i ==> !rule_accepts(#[trigger] rules[j], name, size, mime)
        },
        first_accepting(rules, name, size, mime) is None ==> forall|j: int|
            0 <= j < rules.len() ==> !rule_accepts(#[trigger] rules[j], name, size, mime),
    decreases rules.len(),
{
    if rules.len() > 0 && !rule_accepts(rules[0], name, size, mime) {
        let t = rules.skip(1);
        lemma_first_match_wins(t, name, size, mime);
        assert forall|j: int| 1 <= j < rules.len() implies rules[j] == t[j - 1] by {}
    }
}

/// A destination without placeholders stays as written: with no `{` in the
/// text, filling in the date changes nothing, whatever the time.
pub proof fn lemma_no_placeholders(s: Seq<char>, secs: nat)
    requires
        forall|i: int| 0 <= i < s.len() ==> s[i] != '{',
    ensures
        placeholders_at(s, secs) == s,
{
    reveal_strlit("{year}");
    reveal_strlit("{YYYY}");
    reveal_strlit("{month}");
    reveal_strlit("{MM}");
    reveal_strlit("{day}");
    reveal_strlit("{DD}");
    reveal_strlit("{date}");
    reveal_strlit("{YYYY-MM-DD}");
    let (y, m, d) = civil_date(secs / 86400);
    let year = zero_pad(decimal(y as nat), 4);
    let month = zero_pad(decimal(m as nat), 2);
    let day = zero_pad(decimal(d as nat), 2);
    let date = year + seq!['-'] + month + seq!['-'] + day;
    crate::text::lemma_replace_absent(s, "{year}"@, year);
    crate::text::lemma_replace_absent(s, "{YYYY}"@, year);
    crate::text::lemma_replace_absent(s, "{month}"@, month);
    crate::text::lemma_replace_absent(s, "{MM}"@, month);
    crate::text::lemma_replace_absent(s, "{day}"@, day);
    crate::text::lemma_replace_absent(s, "{DD}"@, day);
    crate::text::lemma_replace_absent(s, "{date}"@, date);
    crate::text::lemma_replace_absent(s, "{YYYY-MM-DD}"@, date);
}

/// How a rule takes a file, stated over its parts: a file outside the size
/// bounds is refused; within them, a matching glob takes it, and so does a
/// detected MIME type matched by any one of the rule's MIME patterns, not
/// only the first; when neither the glob nor any pattern matches, the file
/// is refused.
pub proof fn lemma_rule_acceptance(
    r: CompiledRuleView,
    name: Seq<char>,
    size: u64,
    mime: Option<Seq<char>>,
)
    ensures
        (r.min_size matches Some(min) && size < min) ==> !rule_accepts(r, name, size, mime),
        (r.max_size matches Some(max) && size > max) ==> !rule_accepts(r, name, size, mime),
        ({
            let in_bounds = (r.min_size matches Some(min) ==> size >= min) && (r.max_size matches Some(
                max,
            ) ==> size <= max);
            &&& (in_bounds && r.glob is Some && glob_matches(r.glob->0, name)) ==> rule_accepts(
                r,
                name,
                size,
                mime,
            )
            &&& forall|k: int|
                #![trigger r.mime_patterns[k]]
                (in_bounds && mime is Some && 0 <= k < r.mime_patterns.len()
                    && mime_pattern_matches(mime->0, r.mime_patterns[k])) ==> rule_accepts(
                    r,
                    name,
                    size,
                    mime,
                )
            &&& (!(r.glob is Some && glob_matches(r.glob->0, name)) && forall|k: int|
                0 <= k < r.mime_patterns.len() ==> !(mime is Some && mime_pattern_matches(
                    mime->0,
                    #[trigger] r.mime_patterns[k],
                ))) ==> !rule_accepts(r, name, size, mime)
        }),
{
}

/// A placeholder token: `{`, then characters other than braces, then `}`.
pub open spec fn brace_token(t: Seq<char>) -> bool {
    &&& t.len() >= 2
    &&& t[0] == '{'
    &&& t[t.len() - 1] == '}'
    &&& forall|i: int| 0 < i < t.len() - 1 ==> #[trigger] t[i] != '{' && t[i] != '}'
}

/// `s` holds no `{`.
pub open spec fn brace_free(s: Seq<char>) -> bool {
    forall|i: int| 0 <= i < s.len() ==> #[trigger] s[i] != '{'
}

/// One token begins another only when they are the same token.
proof fn lemma_token_prefix(p: Seq<char>, t: Seq<char>)
    requires
        brace_token(p),
        brace_token(t),
        is_prefix(p, t),
    ensures
        p == t,
{
    if p.len() < t.len() {
        assert(t.take(p.len() as int)[p.len() - 1] == t[p.len() - 1]);
    }
}

/// Replacing a token within a token gives the replacement when they are
/// the same token, and leaves the token as it is otherwise.
proof fn lemma_replace_token(t: Seq<char>, p: Seq<char>, r: Seq<char>)
    requires
        brace_token(t),
        brace_token(p),
    ensures
        replace_all(t, p, r) == if p == t {
            r
        } else {
            t
        },
{
    if p == t {
        assert(t.take(p.len() as int) =~= t);
        assert(is_prefix(p, t));
        let e = t.skip(p.len() as int);
        assert(e =~= Seq::<char>::empty());
        assert(replace_all(e, p, r) == Seq::<char>::empty());
        assert(replace_all(t, p, r) == r + replace_all(e, p, r));
        assert(r + Seq::<char>::empty() =~= r);
    } else {
        if is_prefix(p, t) {
            lemma_token_prefix(p, t);
        }
        let rest = t.skip(1);
        assert forall|i: int| 0 <= i < rest.len() implies rest[i] != p[0] by {
            assert(rest[i] == t[i + 1]);
        }
        crate::text::lemma_replace_absent(rest, p, r);
        assert(seq![t[0]] + rest =~= t);
    }
}

/// One replacement on text that is either the token `t` or free of
/// braces: only the token itself is replaced.
proof fn lemma_replace_step(s: Seq<char>, t: Seq<char>, p: Seq<char>, r: Seq<char>)
    requires
        brace_token(t),
        brace_token(p),
        s == t || brace_free(s),
    ensures
        replace_all(s, p, r) == if s == t && p == t {
            r
        } else {
            s
        },
{
    if s == t {
        lemma_replace_token(t, p, r);
    } else {
        crate::text::lemma_replace_absent(s, p, r);
    }
}

/// Padded decimal notation holds no brace.
proof fn lemma_padded_brace_free(n: nat, w: nat)
    ensures
        brace_free(zero_pad(decimal(n), w)),
{
    crate::text::lemma_decimal_digits(n);
    let z = zero_pad(decimal(n), w);
    assert forall|i: int| 0 <= i < z.len() implies z[i] != '{' by {
        if decimal(n).len() < w {
            let pad = (w - decimal(n).len()) as int;
            if i >= pad {
                assert(z[i] == decimal(n)[i - pad]);
            }
        }
    }
}

/// The placeholders are tokens.
proof fn lemma_placeholders_are_tokens()
    ensures
        brace_token("{year}"@),
        brace_token("{YYYY}"@),
        brace_token("{month}"@),
        brace_token("{MM}"@),
        brace_token("{day}"@),
        brace_token("{DD}"@),
        brace_token("{date}"@),
        brace_token("{YYYY-MM-DD}"@),
{
    reveal_strlit("{year}");
    reveal_strlit("{YYYY}");
    reveal_strlit("{month}");
    reveal_strlit("{MM}");
    reveal_strlit("{day}");
    reveal_strlit("{DD}");
    reveal_strlit("{date}");
    reveal_strlit("{YYYY-MM-DD}");
}

/// What a single placeholder becomes, computed through every replacement.
proof fn lemma_token_text(t: Seq<char>, y: int, m: int, d: int)
    requires
        brace_token(t),
    ensures
        ({
            let year = zero_pad(decimal(y as nat), 4);
            let month = zero_pad(decimal(m as nat), 2);
            let day = zero_pad(decimal(d as nat), 2);
            let date = year + seq!['-'] + month + seq!['-'] + day;
            date_text(t, y, m, d) == if t == "{year}"@ || t == "{YYYY}"@ {
                year
            } else if t == "{month}"@ || t == "{MM}"@ {
                month
            } else if t == "{day}"@ || t == "{DD}"@ {
                day
            } else if t == "{date}"@ || t == "{YYYY-MM-DD}"@ {
                date
            } else {
                t
            }
        }),
{
    reveal_strlit("{year}");
    reveal_strlit("{YYYY}");
    reveal_strlit("{month}");
    reveal_strlit("{MM}");
    reveal_strlit("{day}");
    reveal_strlit("{DD}");
    reveal_strlit("{date}");
    reveal_strlit("{YYYY-MM-DD}");
    lemma_placeholders_are_tokens();
    let year = zero_pad(decimal(y as nat), 4);
    let month = zero_pad(decimal(m as nat), 2);
    let day = zero_pad(decimal(d as nat), 2);
    let date = year + seq!['-'] + month + seq!['-'] + day;
    lemma_padded_brace_free(y as nat, 4);
    lemma_padded_brace_free(m as nat, 2);
    lemma_padded_brace_free(d as nat, 2);
    assert(brace_free(date)) by {
        assert forall|i: int| 0 <= i < date.len() implies date[i] != '{' by {
            let a = year.len() as int;
            let b = a + 1 + month.len();
            if i < a {
                assert(date[i] == year[i]);
            } else if a < i < b {
                assert(date[i] == month[i - a - 1]);
            } else if i > b {
                assert(date[i] == day[i - b - 1]);
            }
        }
    }
    let s1 = replace_all(t, "{year}"@, year);
    lemma_replace_step(t, t, "{year}"@, year);
    let s2 = replace_all(s1, "{YYYY}"@, year);
    lemma_replace_step(s1, t, "{YYYY}"@, year);
    let s3 = replace_all(s2, "{month}"@, month);
    lemma_replace_step(s2, t, "{month}"@, month);
    let s4 = replace_all(s3, "{MM}"@, month);
    lemma_replace_step(s3, t, "{MM}"@, month);
    let s5 = replace_all(s4, "{day}"@, day);
    lemma_replace_step(s4, t, "{day}"@, day);
    let s6 = replace_all(s5, "{DD}"@, day);
    lemma_replace_step(s5, t, "{DD}"@, day);
    let s7 = replace_all(s6, "{date}"@, date);
    lemma_replace_step(s6, t, "{date}"@, date);
    lemma_replace_step(s7, t, "{YYYY-MM-DD}"@, date);
}

/// What each placeholder stands for, for the UTC day `(y, m, d)` of `secs`
/// seconds after the epoch (`civil_date`): `{year}` and
/// `{YYYY}` the year with at least four digits, `{month}` and `{MM}` the
/// month with two, `{day}` and `{DD}` the day with two, `{date}` and
/// `{YYYY-MM-DD}` the three joined by `-`. Each alias fills in exactly what
/// its long name fills in.
pub proof fn lemma_placeholder_values(secs: nat)
    ensures
        ({
            let (y, m, d) = civil_date(secs / 86400);
            let year = zero_pad(decimal(y as nat), 4);
            let month = zero_pad(decimal(m as nat), 2);
            let day = zero_pad(decimal(d as nat), 2);
            &&& placeholders_at("{year}"@, secs) == year
            &&& placeholders_at("{YYYY}"@, secs) == year
            &&& placeholders_at("{month}"@, secs) == month
            &&& placeholders_at("{MM}"@, secs) == month
            &&& placeholders_at("{day}"@, secs) == day
            &&& placeholders_at("{DD}"@, secs) == day
            &&& placeholders_at("{date}"@, secs) == year + seq!['-'] + month + seq!['-'] + day
            &&& placeholders_at("{YYYY-MM-DD}"@, secs) == placeholders_at("{date}"@, secs)
        }),
{
    reveal_strlit("{year}");
    reveal_strlit("{YYYY}");
    reveal_strlit("{month}");
    reveal_strlit("{MM}");
    reveal_strlit("{day}");
    reveal_strlit("{DD}");
    reveal_strlit("{date}");
    reveal_strlit("{YYYY-MM-DD}");
    lemma_placeholders_are_tokens();
    let (y, m, d) = civil_date(secs / 86400);
    lemma_token_text("{year}"@, y, m, d);
    lemma_token_text("{YYYY}"@, y, m, d);
    lemma_token_text("{month}"@, y, m, d);
    lemma_token_text("{MM}"@, y, m, d);
    lemma_token_text("{day}"@, y, m, d);
    lemma_token_text("{DD}"@, y, m, d);
    lemma_token_text("{date}"@, y, m, d);
    lemma_token_text("{YYYY-MM-DD}"@, y, m, d);
    let year = zero_pad(decimal(y as nat), 4);
    let month = zero_pad(decimal(m as nat), 2);
    let day = zero_pad(decimal(d as nat), 2);
    assert(placeholders_at("{day}"@, secs) == date_text("{day}"@, y, m, d));
    assert(placeholders_at("{DD}"@, secs) == date_text("{DD}"@, y, m, d));
    assert(placeholders_at("{date}"@, secs) == date_text("{date}"@, y, m, d));
    assert(placeholders_at("{YYYY-MM-DD}"@, secs) == date_text("{YYYY-MM-DD}"@, y, m, d));
    assert("{DD}"@[1] != "{MM}"@[1]);
    assert("{date}"@[1] != "{year}"@[1]);
    assert("{date}"@[1] != "{YYYY}"@[1]);
    assert("{day}"@[1] != "{MM}"@[1]);
    assert("{DD}"@ != "{year}"@ && "{DD}"@ != "{YYYY}"@ && "{DD}"@ != "{month}"@ && "{DD}"@ != "{MM}"@);
    assert("{date}"@ != "{year}"@ && "{date}"@ != "{YYYY}"@ && "{date}"@ != "{month}"@
        && "{date}"@ != "{MM}"@ && "{date}"@ != "{day}"@ && "{date}"@ != "{DD}"@);
}

} // verus!
