//! Where an organized file lands.
use vstd::prelude::*;

use crate::path::{extension, file_name, last_dot, file_name_of, file_stem, join, join_paths, parent_of, parent_path, split_name};
use crate::text::{decimal, digit_char, lemma_decimal_digits, extend_chars, from_chars, push_decimal, to_chars};

verus! {

/// The file name of `p`, or nothing when it has none.
pub open spec fn name_or_empty(p: Seq<char>) -> Seq<char> {
    match file_name(p) {
        Some(n) => n,
        None => seq![],
    }
}

/// The file name of a path (empty when it has none).
pub fn file_name_text(p: &str) -> (out: String)
    ensures
        out@ == name_or_empty(p@),
{
    let pc = to_chars(p);
    match file_name_of(pc.as_slice()) {
        Some(n) => from_chars(n.as_slice()),
        None => String::new(),
    }
}

/// Where `src` goes inside the directory `dest_dir`: under its own name.
pub open spec fn destination_spec(dest_dir: Seq<char>, src: Seq<char>) -> Seq<char> {
    join(dest_dir, name_or_empty(src))
}

/// The path that `src` takes inside `dest_dir`.
pub fn destination(dest_dir: &str, src: &str) -> (out: String)
    ensures
        out@ == destination_spec(dest_dir@, src@),
{
    let name = file_name_text(src);
    let d = to_chars(dest_dir);
    let n = to_chars(name.as_str());
    let j = join_paths(d.as_slice(), n.as_slice());
    from_chars(j.as_slice())
}

/// The `n`-th alternative name for a path that is taken: `stem_n.ext` in
/// the same directory (the current one when it has no parent), keeping
/// only the last extension (`a.tar.gz` gives `a.tar_1.gz`).
pub open spec fn dedup_candidate_spec(dst: Seq<char>, n: nat) -> Seq<char> {
    let parent = match parent_path(dst) {
        Some(p) => p,
        None => seq!['.'],
    };
    let stem = match file_stem(dst) {
        Some(s) => s,
        None => seq![],
    };
    let ext = match extension(dst) {
        Some(e) => seq!['.'] + e,
        None => seq![],
    };
    join(parent, stem + seq!['_'] + decimal(n) + ext)
}

/// The `n`-th alternative name for `dst` when a file of that name exists.
pub fn dedup_candidate(dst: &str, n: u64) -> (out: String)
    ensures
        out@ == dedup_candidate_spec(dst@, n as nat),
{
    let d = to_chars(dst);
    let parent: Vec<char> = match parent_of(d.as_slice()) {
        Some(p) => p,
        None => {
            let mut dot: Vec<char> = Vec::new();
            dot.push('.');
            assert(dot@ =~= seq!['.']);
            dot
        },
    };
    let mut name: Vec<char> = Vec::new();
    match file_name_of(d.as_slice()) {
        Some(fname) => {
            let (stem, ext) = split_name(fname.as_slice());
            extend_chars(&mut name, stem.as_slice());
            name.push('_');
            push_decimal(&mut name, n);
            match ext {
                Some(e) => {
                    name.push('.');
                    extend_chars(&mut name, e.as_slice());
                },
                None => {},
            }
        },
        None => {
            name.push('_');
            push_decimal(&mut name, n);
        },
    }
    proof {
        let stem = match file_stem(dst@) {
            Some(s) => s,
            None => seq![],
        };
        let ext = match extension(dst@) {
            Some(e) => seq!['.'] + e,
            None => seq![],
        };
        assert(name@ =~= stem + seq!['_'] + decimal(n as nat) + ext);
    }
    let j = join_paths(parent.as_slice(), name.as_slice());
    from_chars(j.as_slice())
}

/// Organized files keep their names: the destination of a file that has a
/// name carries that same name.
pub proof fn lemma_destination_keeps_name(dest_dir: Seq<char>, src: Seq<char>)
    requires
        file_name(src) is Some,
    ensures
        file_name(destination_spec(dest_dir, src)) == file_name(src),
{
    crate::path::lemma_file_name_plain(src);
    crate::path::lemma_join_keeps_name(dest_dir, file_name(src)->0);
}

/// `c` does not occur in `s`.
pub open spec fn lacks(s: Seq<char>, c: char) -> bool {
    forall|i: int| 0 <= i < s.len() ==> s[i] != c
}

/// What the last dot of a name says about the name.
proof fn lemma_last_dot_facts(name: Seq<char>)
    ensures
        last_dot_spec_is_none_or_dot(name),
    decreases name.len(),
{
    if name.len() > 0 && name.last() != '.' {
        lemma_last_dot_facts(name.drop_last());
        if let Some(i) = crate::path::last_dot(name.drop_last()) {
            assert forall|k: int| i < k < name.len() implies name[k] != '.' by {
                if k < name.len() - 1 {
                    assert(name[k] == name.drop_last()[k]);
                }
            }
        } else {
            assert forall|k: int| 0 <= k < name.len() implies name[k] != '.' by {
                if k < name.len() - 1 {
                    assert(name[k] == name.drop_last()[k]);
                }
            }
        }
    }
}

/// The last dot is a dot, and none follows it; without one, the name has
/// no dot.
pub open spec fn last_dot_spec_is_none_or_dot(name: Seq<char>) -> bool {
    match crate::path::last_dot(name) {
        Some(i) => 0 <= i < name.len() && name[i] == '.' && forall|k: int|
            i < k < name.len() ==> name[k] != '.',
        None => lacks(name, '.'),
    }
}

/// Text without dots appended at the end does not move the last dot.
proof fn lemma_last_dot_append(x: Seq<char>, y: Seq<char>)
    requires
        lacks(y, '.'),
    ensures
        crate::path::last_dot(x + y) == crate::path::last_dot(x),
    decreases y.len(),
{
    if y.len() == 0 {
        assert(x + y =~= x);
    } else {
        assert((x + y).drop_last() =~= x + y.drop_last());
        assert((x + y).last() == y.last());
        lemma_last_dot_append(x, y.drop_last());
    }
}

/// A renamed file keeps its extension and takes the name `stem_n.ext`:
/// the candidate's file name is the stem, `_`, the number and the
/// extension of the taken name, and its extension is the same.
pub proof fn lemma_dedup_keeps_extension(dst: Seq<char>, n: nat)
    requires
        file_name(dst) is Some,
    ensures
        file_name(dedup_candidate_spec(dst, n)) == Some(
            file_stem(dst)->0 + seq!['_'] + decimal(n) + match extension(dst) {
                Some(e) => seq!['.'] + e,
                None => seq![],
            },
        ),
        extension(dedup_candidate_spec(dst, n)) == extension(dst),
{
    let fname = file_name(dst)->0;
    crate::path::lemma_file_name_plain(dst);
    lemma_last_dot_facts(fname);
    lemma_decimal_digits(n);
    let stem = file_stem(dst)->0;
    let dec = decimal(n);
    let ext = match extension(dst) {
        Some(e) => seq!['.'] + e,
        None => seq![],
    };
    let base = stem + seq!['_'] + dec;
    let name = base + ext;
    // the new name is one plain segment
    assert(crate::path::no_sep(stem)) by {
        assert forall|k: int| 0 <= k < stem.len() implies stem[k] != '/' by {
            assert(stem[k] == fname[k]);
        }
    }
    assert(crate::path::no_sep(name)) by {
        assert forall|k: int| 0 <= k < name.len() implies name[k] != '/' by {
            if k < stem.len() {
                assert(name[k] == stem[k]);
            } else if k == stem.len() {
            } else if k < base.len() {
                assert(name[k] == dec[k - stem.len() - 1]);
            } else if k > base.len() {
                let i = crate::path::last_dot(fname)->0;
                assert(name[k] == fname[i + 1 + (k - base.len() - 1)]);
            }
        }
    }
    assert(name[stem.len() as int] == '_');
    assert(crate::path::keeps(name)) by {
        if name == seq!['.'] {
            assert(name[stem.len() as int] == '_');
        }
    }
    assert(name != seq!['.', '.']) by {
        if name == seq!['.', '.'] {
            assert(name[stem.len() as int] == '_');
        }
    }
    let parent = match crate::path::parent_path(dst) {
        Some(p) => p,
        None => seq!['.'],
    };
    crate::path::lemma_join_keeps_name(parent, name);
    // the extension survives
    assert(lacks(dec, '.')) by {
        assert forall|k: int| 0 <= k < dec.len() implies dec[k] != '.' by {
            assert('0' <= dec[k] <= '9');
        }
    }
    match extension(dst) {
        Some(e) => {
            let i = crate::path::last_dot(fname)->0;
            assert(e =~= fname.skip(i + 1));
            assert(lacks(e, '.')) by {
                assert forall|k: int| 0 <= k < e.len() implies e[k] != '.' by {
                    assert(e[k] == fname[i + 1 + k]);
                }
            }
            lemma_last_dot_append(base + seq!['.'], e);
            assert(name =~= (base + seq!['.']) + e);
            assert(crate::path::last_dot(base + seq!['.']) == Some(base.len() as int));
            assert(name.skip(base.len() as int + 1) =~= e);
        },
        None => {
            assert(name =~= base);
            match crate::path::last_dot(fname) {
                Some(i) => {
                    assert(i == 0);
                    assert(stem == fname);
                    lemma_last_dot_append(stem, seq!['_'] + dec);
                    assert(base =~= stem + (seq!['_'] + dec));
                    assert forall|k: int| 0 <= k < (seq!['_'] + dec).len() implies (seq!['_']
                        + dec)[k] != '.' by {
                        if k > 0 {
                            assert((seq!['_'] + dec)[k] == dec[k - 1]);
                        }
                    }
                },
                None => {
                    assert(stem == fname);
                    assert forall|k: int| 0 <= k < (seq!['_'] + dec).len() implies (seq!['_']
                        + dec)[k] != '.' by {
                        if k > 0 {
                            assert((seq!['_'] + dec)[k] == dec[k - 1]);
                        }
                    }
                    lemma_last_dot_append(stem, seq!['_'] + dec);
                    assert(base =~= stem + (seq!['_'] + dec));
                    lemma_last_dot_append(seq![], stem);
                    assert(seq![] + stem =~= stem);
                },
            }
        },
    }
}

/// Decimal notation tells numbers apart.
proof fn lemma_decimal_injective(a: nat, b: nat)
    requires
        decimal(a) == decimal(b),
    ensures
        a == b,
    decreases a,
{
    if a < 10 && b < 10 {
        assert(decimal(a)[0] == digit_char(a as int));
        assert(decimal(b)[0] == digit_char(b as int));
        assert(digit_char(a as int) as u32 == 48 + a);
        assert(digit_char(b as int) as u32 == 48 + b);
    } else if a >= 10 && b >= 10 {
        let da = decimal(a / 10);
        let db = decimal(b / 10);
        assert(decimal(a) == da.push(digit_char((a % 10) as int)));
        assert(decimal(b) == db.push(digit_char((b % 10) as int)));
        assert(decimal(a).drop_last() =~= da);
        assert(decimal(b).drop_last() =~= db);
        assert(decimal(a)[decimal(a).len() - 1] == digit_char((a % 10) as int));
        assert(decimal(b)[decimal(b).len() - 1] == digit_char((b % 10) as int));
        assert(digit_char((a % 10) as int) == digit_char((b % 10) as int));
        assert(digit_char((a % 10) as int) as u32 == 48 + a % 10);
        assert(digit_char((b % 10) as int) as u32 == 48 + b % 10);
        assert(a % 10 == b % 10);
        lemma_decimal_injective(a / 10, b / 10);
        assert(a == 10 * (a / 10) + a % 10);
        assert(b == 10 * (b / 10) + b % 10);
    } else if a < 10 {
        lemma_decimal_nonempty(b / 10);
        assert(decimal(b).len() >= 2);
    } else {
        lemma_decimal_nonempty(a / 10);
        assert(decimal(a).len() >= 2);
    }
}

/// Decimal notation has at least one digit.
proof fn lemma_decimal_nonempty(n: nat)
    ensures
        decimal(n).len() >= 1,
    decreases n,
{
    if n >= 10 {
        lemma_decimal_nonempty(n / 10);
    }
}

/// Renaming never offers the same name twice, nor the taken name itself:
/// different numbers give different candidates, and each differs from the
/// taken path.
pub proof fn lemma_dedup_candidates_distinct(dst: Seq<char>, n: nat, m: nat)
    requires
        file_name(dst) is Some,
    ensures
        n != m ==> dedup_candidate_spec(dst, n) != dedup_candidate_spec(dst, m),
        dedup_candidate_spec(dst, n) != dst,
{
    lemma_dedup_keeps_extension(dst, n);
    lemma_dedup_keeps_extension(dst, m);
    lemma_decimal_nonempty(n);
    let stem = file_stem(dst)->0;
    let ext = match extension(dst) {
        Some(e) => seq!['.'] + e,
        None => seq![],
    };
    let name_n = stem + seq!['_'] + decimal(n) + ext;
    let name_m = stem + seq!['_'] + decimal(m) + ext;
    if n != m && dedup_candidate_spec(dst, n) == dedup_candidate_spec(dst, m) {
        assert(name_n == name_m);
        assert(decimal(n).len() == decimal(m).len());
        let lo: int = stem.len() as int + 1;
        assert(decimal(n) =~= name_n.subrange(lo, lo + decimal(n).len()));
        assert(decimal(m) =~= name_m.subrange(lo, lo + decimal(m).len()));
        lemma_decimal_injective(n, m);
    }
    // the taken name is stem + ext, one character and a digit shorter
    let fname = file_name(dst)->0;
    assert(fname.len() == stem.len() + ext.len()) by {
        lemma_last_dot_facts(fname);
        match last_dot(fname) {
            Some(i) => {
                if i != 0 {
                    assert(stem.len() == i);
                    assert(ext.len() == fname.len() - i);
                }
            },
            None => {},
        }
    }
    assert(name_n.len() > fname.len());
}

/// The `k`-th name tried for a file whose destination is `dst`: `dst`
/// itself, then `stem_1.ext`, `stem_2.ext`, ...
pub open spec fn candidate_spec(dst: Seq<char>, k: nat) -> Seq<char> {
    if k == 0 {
        dst
    } else {
        dedup_candidate_spec(dst, k)
    }
}

/// The `k`-th name tried for a file whose destination is `dst`.
pub fn candidate(dst: &str, k: u64) -> (out: String)
    ensures
        out@ == candidate_spec(dst@, k as nat),
{
    if k == 0 {
        let cs = to_chars(dst);
        from_chars(cs.as_slice())
    } else {
        dedup_candidate(dst, k)
    }
}

/// What to do after looking whether the `k`-th name is taken.
#[derive(Debug, Clone, Copy, PartialEq, Eq, Structural)]
pub enum DedupStep {
    /// Use the `k`-th name.
    Take,
    /// Look at the name with this number next.
    TryNext(u64),
}

/// The step after looking at the `k`-th name: it is used when it is free,
/// or when renaming is off (the file then replaces what is there);
/// otherwise the next number is tried.
pub open spec fn dedup_step_spec(dedup: bool, k: nat, taken: bool) -> Option<nat> {
    if !taken || !dedup {
        None
    } else {
        Some(k + 1)
    }
}

/// Decides the next step of finding a free name.
pub fn dedup_next(dedup: bool, k: u64, taken: bool) -> (d: DedupStep)
    requires
        k < u64::MAX,
    ensures
        match dedup_step_spec(dedup, k as nat, taken) {
            None => d == DedupStep::Take,
            Some(j) => d == DedupStep::TryNext(j as u64),
        },
{
    if !taken || !dedup {
        DedupStep::Take
    } else {
        DedupStep::TryNext(k + 1)
    }
}

/// Looking at names 0, 1, ..., `k` against the taken names `taken`, every
/// step before `k` moves on and the step at `k` takes the name.
pub open spec fn walk_stops_at(dst: Seq<char>, dedup: bool, taken: Set<Seq<char>>, k: nat) -> bool {
    &&& forall|j: nat|
        j < k ==> dedup_step_spec(dedup, j, taken.contains(#[trigger] candidate_spec(dst, j)))
            == Some(j + 1)
    &&& dedup_step_spec(dedup, k, taken.contains(candidate_spec(dst, k))) is None
}

/// `k` numbers the first free name: it is not taken, every earlier one is.
pub open spec fn first_free(dst: Seq<char>, taken: Set<Seq<char>>, k: nat) -> bool {
    &&& !taken.contains(candidate_spec(dst, k))
    &&& forall|j: nat| j < k ==> taken.contains(#[trigger] candidate_spec(dst, j))
}

/// A file lands under the first free name: with renaming on, the walk
/// stops exactly at the first name that is not taken (`name`, then
/// `name_1.ext`, `name_2.ext`, ...); with renaming off it stops at once, on
/// the destination itself.
pub proof fn lemma_dedup_takes_first_free(dst: Seq<char>, dedup: bool, taken: Set<Seq<char>>, k: nat)
    ensures
        walk_stops_at(dst, dedup, taken, k) <==> (if dedup {
            first_free(dst, taken, k)
        } else {
            k == 0
        }),
{
    if !dedup && k > 0 && walk_stops_at(dst, dedup, taken, k) {
        assert(dedup_step_spec(dedup, 0, taken.contains(candidate_spec(dst, 0))) == Some(1nat));
    }
    if dedup && first_free(dst, taken, k) {
        assert forall|j: nat| j < k implies dedup_step_spec(
            dedup,
            j,
            taken.contains(#[trigger] candidate_spec(dst, j)),
        ) == Some(j + 1) by {
            assert(taken.contains(candidate_spec(dst, j)));
        }
    }
    if dedup && walk_stops_at(dst, dedup, taken, k) {
        assert forall|j: nat| j < k implies taken.contains(#[trigger] candidate_spec(dst, j)) by {
            assert(dedup_step_spec(dedup, j, taken.contains(candidate_spec(dst, j))) == Some(j + 1));
        }
    }
}

} // verus!
