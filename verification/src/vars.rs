//! Environment variables in configured paths: `$NAME` and `${NAME}`.
use vstd::prelude::*;

use crate::text::{extend_chars, from_chars, to_chars};

verus! {

/// The value of the environment variable `name` in `env`, a list of
/// (name, value) pairs: the first pair with that name.
pub open spec fn env_lookup(env: Seq<(String, String)>, name: Seq<char>) -> Option<Seq<char>>
    decreases env.len(),
{
    if env.len() == 0 {
        None
    } else if env[0].0@ == name {
        Some(env[0].1@)
    } else {
        env_lookup(env.skip(1), name)
    }
}

/// A character that may start a variable name.
pub open spec fn is_name_start(c: char) -> bool {
    ('a' <= c && c <= 'z') || ('A' <= c && c <= 'Z') || c == '_'
}

/// A character that may continue a variable name.
pub open spec fn is_name_char(c: char) -> bool {
    is_name_start(c) || ('0' <= c && c <= '9')
}

/// Length of the run of name characters at the start of `s`.
pub open spec fn name_run(s: Seq<char>) -> nat
    decreases s.len(),
{
    if s.len() > 0 && is_name_char(s[0]) {
        1 + name_run(s.skip(1))
    } else {
        0
    }
}

/// Index of the first `c` in `s`.
pub open spec fn first_index(s: Seq<char>, c: char) -> Option<nat>
    decreases s.len(),
{
    if s.len() == 0 {
        None
    } else if s[0] == c {
        Some(0)
    } else {
        match first_index(s.skip(1), c) {
            Some(k) => Some(k + 1),
            None => None,
        }
    }
}

/// A found index lies inside the sequence.
pub proof fn lemma_first_index_bound(s: Seq<char>, c: char)
    ensures
        first_index(s, c) matches Some(k) ==> k < s.len() && s[k as int] == c,
    decreases s.len(),
{
    if s.len() > 0 && s[0] != c {
        lemma_first_index_bound(s.skip(1), c);
    }
}

/// A run of name characters lies inside the sequence.
pub proof fn lemma_name_run_bound(s: Seq<char>)
    ensures
        name_run(s) <= s.len(),
    decreases s.len(),
{
    if s.len() > 0 && is_name_char(s[0]) {
        lemma_name_run_bound(s.skip(1));
    }
}

/// `s` with `$NAME` and `${NAME}` replaced by the values that `env` gives
/// the variables; a variable that `env` does not hold stays as written.
pub open spec fn expand_env_spec(s: Seq<char>, env: Seq<(String, String)>) -> Seq<char>
    decreases s.len(),
{
    if s.len() == 0 {
        seq![]
    } else if s[0] == '$' && s.len() >= 2 && s[1] == '{' && first_index(s.skip(2), '}').is_some() {
        let k = first_index(s.skip(2), '}').unwrap() as int;
        proof {
            lemma_first_index_bound(s.skip(2), '}');
        }
        let name = s.subrange(2, 2 + k);
        let value = match env_lookup(env, name) {
            Some(v) => v,
            None => s.take(3 + k),
        };
        value + expand_env_spec(s.skip(3 + k), env)
    } else if s[0] == '$' && s.len() >= 2 && s[1] != '{' && is_name_start(s[1]) {
        let j = name_run(s.skip(1)) as int;
        proof {
            lemma_name_run_bound(s.skip(1));
        }
        let name = s.subrange(1, 1 + j);
        let value = match env_lookup(env, name) {
            Some(v) => v,
            None => seq!['$'] + name,
        };
        value + expand_env_spec(s.skip(1 + j), env)
    } else {
        seq![s[0]] + expand_env_spec(s.skip(1), env)
    }
}

/// Looks a variable up in the environment list.
pub fn env_value(env: &Vec<(String, String)>, name: &[char]) -> (res: Option<Vec<char>>)
    ensures
        match res {
            Some(v) => env_lookup(env@, name@) == Some(v@),
            None => env_lookup(env@, name@).is_none(),
        },
{
    let mut i: usize = 0;
    assert(env@.skip(0) =~= env@);
    while i < env.len()
        invariant
            i <= env.len(),
            env_lookup(env@, name@) == env_lookup(env@.skip(i as int), name@),
        decreases env.len() - i,
    {
        let k = to_chars(env[i].0.as_str());
        assert(env@.skip(i as int)[0] == env@[i as int]);
        if crate::text::chars_eq(k.as_slice(), name) {
            return Some(to_chars(env[i].1.as_str()));
        }
        assert(env@.skip(i as int).skip(1) =~= env@.skip(i + 1));
        i = i + 1;
    }
    None
}

fn is_name_start_char(c: char) -> (res: bool)
    ensures
        res == is_name_start(c),
{
    ('a' <= c && c <= 'z') || ('A' <= c && c <= 'Z') || c == '_'
}

fn is_name_char_exec(c: char) -> (res: bool)
    ensures
        res == is_name_char(c),
{
    is_name_start_char(c) || ('0' <= c && c <= '9')
}

/// Expands `$VAR` and `${VAR}` in `s` with the values in `env`; unknown
/// variables stay literal.
#[verifier::rlimit(40)]
pub fn expand_env(s: &str, env: &Vec<(String, String)>) -> (out: String)
    ensures
        out@ == expand_env_spec(s@, env@),
{
    let chars = to_chars(s);
    let n = chars.len();
    let mut out: Vec<char> = Vec::new();
    let mut i: usize = 0;
    assert(chars@.skip(0) =~= chars@);
    while i < n
        invariant
            n == chars.len(),
            i <= n,
            expand_env_spec(s@, env@) == out@ + expand_env_spec(chars@.skip(i as int), env@),
            chars@ == s@,
        decreases n - i,
    {
        let ghost rest = chars@.skip(i as int);
        let ghost before = out@;
        if chars[i] == '$' && i + 1 < n && chars[i + 1] == '{' {
            // look for the closing brace
            let mut j: usize = i + 2;
            while j < n && chars[j] != '}'
                invariant
                    i + 2 <= j <= n,
                    n == chars.len(),
                    first_index(chars@.skip(i + 2), '}') == match first_index(
                        chars@.skip(j as int),
                        '}',
                    ) {
                        Some(k) => Some((k + (j - (i + 2))) as nat),
                        None => None,
                    },
                decreases n - j,
            {
                assert(chars@.skip(j as int).skip(1) =~= chars@.skip(j + 1));
                j = j + 1;
            }
            assert(rest.skip(2) =~= chars@.skip(i + 2));
            if j < n {
                let k = j - (i + 2);
                assert(first_index(chars@.skip(i + 2), '}') == Some(k as nat));
                let name_slice = &chars.as_slice()[i + 2..j];
                assert(name_slice@ =~= rest.subrange(2, 2 + k));
                match env_value(env, name_slice) {
                    Some(v) => extend_chars(&mut out, v.as_slice()),
                    None => {
                        let lit = &chars.as_slice()[i..j + 1];
                        assert(lit@ =~= rest.take(3 + k));
                        extend_chars(&mut out, lit);
                    },
                }
                assert(rest.skip(3 + k) =~= chars@.skip(j + 1));
                i = j + 1;
                proof {
                    let value = if env_lookup(env@, rest.subrange(2, 2 + k)).is_some() {
                        env_lookup(env@, rest.subrange(2, 2 + k)).unwrap()
                    } else {
                        rest.take(3 + k)
                    };
                    assert(out@ == before + value);
                    assert(expand_env_spec(rest, env@) == value + expand_env_spec(
                        chars@.skip(i as int),
                        env@,
                    ));
                    assert(before + (value + expand_env_spec(chars@.skip(i as int), env@))
                        =~= out@ + expand_env_spec(chars@.skip(i as int), env@));
                }
                continue;
            }
            assert(first_index(chars@.skip(i + 2), '}').is_none());
        } else if chars[i] == '$' && i + 1 < n && chars[i + 1] != '{' && is_name_start_char(
            chars[i + 1],
        ) {
            let mut j: usize = i + 1;
            while j < n && is_name_char_exec(chars[j])
                invariant
                    i + 1 <= j <= n,
                    n == chars.len(),
                    name_run(chars@.skip(i + 1)) == (j - (i + 1)) + name_run(chars@.skip(j as int)),
                decreases n - j,
            {
                assert(chars@.skip(j as int).skip(1) =~= chars@.skip(j + 1));
                j = j + 1;
            }
            assert(name_run(chars@.skip(j as int)) == 0);
            assert(rest.skip(1) =~= chars@.skip(i + 1));
            let k = j - (i + 1);
            let name_slice = &chars.as_slice()[i + 1..j];
            assert(name_slice@ =~= rest.subrange(1, 1 + k));
            match env_value(env, name_slice) {
                Some(v) => extend_chars(&mut out, v.as_slice()),
                None => {
                    out.push('$');
                    extend_chars(&mut out, name_slice);
                },
            }
            assert(rest.skip(1 + k) =~= chars@.skip(j as int));
            i = j;
            proof {
                let name = rest.subrange(1, 1 + k);
                let value = if env_lookup(env@, name).is_some() {
                    env_lookup(env@, name).unwrap()
                } else {
                    seq!['$'] + name
                };
                assert(out@ =~= before + value);
                assert(before + (value + expand_env_spec(chars@.skip(i as int), env@))
                    =~= out@ + expand_env_spec(chars@.skip(i as int), env@));
            }
            continue;
        }
        out.push(chars[i]);
        assert(rest.skip(1) =~= chars@.skip(i + 1));
        i = i + 1;
        assert(before + (seq![rest[0]] + expand_env_spec(chars@.skip(i as int), env@)) =~= out@
            + expand_env_spec(chars@.skip(i as int), env@));
    }
    assert(chars@.skip(n as int) =~= Seq::<char>::empty());
    assert(out@ + Seq::<char>::empty() =~= out@);
    from_chars(out.as_slice())
}

/// The variable names that `s` refers to, as `$NAME` or `${NAME}`, read
/// the way expansion reads them.
pub open spec fn referenced_names(s: Seq<char>) -> Set<Seq<char>>
    decreases s.len(),
{
    if s.len() == 0 {
        Set::empty()
    } else if s[0] == '$' && s.len() >= 2 && s[1] == '{' && first_index(s.skip(2), '}').is_some() {
        let k = first_index(s.skip(2), '}').unwrap() as int;
        proof {
            lemma_first_index_bound(s.skip(2), '}');
        }
        referenced_names(s.skip(3 + k)).insert(s.subrange(2, 2 + k))
    } else if s[0] == '$' && s.len() >= 2 && s[1] != '{' && is_name_start(s[1]) {
        let j = name_run(s.skip(1)) as int;
        proof {
            lemma_name_run_bound(s.skip(1));
        }
        referenced_names(s.skip(1 + j)).insert(s.subrange(1, 1 + j))
    } else {
        referenced_names(s.skip(1))
    }
}

/// Unknown variables stay literal: when `env` holds none of the variables
/// that `s` refers to, expansion leaves `s` as it is.
pub proof fn lemma_unknown_vars_stay_literal(s: Seq<char>, env: Seq<(String, String)>)
    requires
        forall|n: Seq<char>| #[trigger] referenced_names(s).contains(n) ==> env_lookup(env, n) is None,
    ensures
        expand_env_spec(s, env) == s,
    decreases s.len(),
{
    if s.len() > 0 {
        if s[0] == '$' && s.len() >= 2 && s[1] == '{' && first_index(s.skip(2), '}').is_some() {
            let k = first_index(s.skip(2), '}').unwrap() as int;
            lemma_first_index_bound(s.skip(2), '}');
            assert(referenced_names(s).contains(s.subrange(2, 2 + k)));
            assert forall|n: Seq<char>| #[trigger] referenced_names(s.skip(3 + k)).contains(n) implies env_lookup(env, n) is None by {
                assert(referenced_names(s).contains(n));
            }
            lemma_unknown_vars_stay_literal(s.skip(3 + k), env);
            assert(s.take(3 + k) + s.skip(3 + k) =~= s);
        } else if s[0] == '$' && s.len() >= 2 && s[1] != '{' && is_name_start(s[1]) {
            let j = name_run(s.skip(1)) as int;
            lemma_name_run_bound(s.skip(1));
            assert(referenced_names(s).contains(s.subrange(1, 1 + j)));
            assert forall|n: Seq<char>| #[trigger] referenced_names(s.skip(1 + j)).contains(n) implies env_lookup(env, n) is None by {
                assert(referenced_names(s).contains(n));
            }
            lemma_unknown_vars_stay_literal(s.skip(1 + j), env);
            assert(seq!['$'] + s.subrange(1, 1 + j) + s.skip(1 + j) =~= s);
        } else {
            assert forall|n: Seq<char>| #[trigger] referenced_names(s.skip(1)).contains(n) implies env_lookup(env, n) is None by {
                assert(referenced_names(s).contains(n));
            }
            lemma_unknown_vars_stay_literal(s.skip(1), env);
            assert(seq![s[0]] + s.skip(1) =~= s);
        }
    }
}

} // verus!
