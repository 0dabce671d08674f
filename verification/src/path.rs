//! Paths as text, following the Unix rules of `std::path`: `/` separates
//! components, empty and `.` components are skipped (a leading `.` of a
//! relative path excepted), and two paths are equal when their components
//! are.
use vstd::prelude::*;

use crate::text::{chars_eq, extend_chars};

verus! {

/// Number of characters before the first `/` of `s` (all of them if none).
pub open spec fn seg_len(s: Seq<char>) -> nat
    decreases s.len(),
{
    if s.len() == 0 {
        0
    } else if s[0] == '/' {
        0
    } else {
        1 + seg_len(s.skip(1))
    }
}

/// A segment that names a component: neither empty nor `.`.
pub open spec fn keeps(seg: Seq<char>) -> bool {
    seg.len() > 0 && seg != seq!['.']
}

/// The components named by the segments of a path body.
pub open spec fn body_components(s: Seq<char>) -> Seq<Seq<char>>
    decreases s.len(),
{
    if s.len() == 0 {
        seq![]
    } else {
        let k = seg_len(s);
        let seg = s.take(k as int);
        let rest = if k < s.len() {
            s.skip(k as int + 1)
        } else {
            seq![]
        };
        if keeps(seg) {
            seq![seg] + body_components(rest)
        } else {
            body_components(rest)
        }
    }
}

/// `s` is absolute: it starts at the root.
pub open spec fn is_rooted(s: Seq<char>) -> bool {
    s.len() > 0 && s[0] == '/'
}

/// `s` starts with the current-directory component `.`.
pub open spec fn has_cur_dir(s: Seq<char>) -> bool {
    s.len() > 0 && s[0] == '.' && (s.len() == 1 || s[1] == '/')
}

/// The components of a path. The root is written `/` and a leading current
/// directory `.`; every other component is a non-empty segment other than
/// `.` (`..` stands for the parent directory).
pub open spec fn components(s: Seq<char>) -> Seq<Seq<char>> {
    if is_rooted(s) {
        seq![seq!['/']] + body_components(s.skip(1))
    } else if has_cur_dir(s) {
        seq![seq!['.']] + body_components(s.skip(1))
    } else {
        body_components(s)
    }
}

/// A component that is an ordinary name.
pub open spec fn is_normal(c: Seq<char>) -> bool {
    c != seq!['/'] && c != seq!['.'] && c != seq!['.', '.']
}

/// Two paths name the same location (`Path`'s `==`).
pub open spec fn same_path(a: Seq<char>, b: Seq<char>) -> bool {
    components(a) == components(b)
}

/// The components of `base` begin those of `p` (`Path::starts_with`).
pub open spec fn path_starts_with(p: Seq<char>, base: Seq<char>) -> bool {
    let cp = components(p);
    let cb = components(base);
    cb.len() <= cp.len() && cp.take(cb.len() as int) == cb
}

/// The last component of `p` when it is an ordinary name (`Path::file_name`).
pub open spec fn file_name(p: Seq<char>) -> Option<Seq<char>> {
    let c = components(p);
    if c.len() > 0 && is_normal(c.last()) {
        Some(c.last())
    } else {
        None
    }
}

/// `b` appended to `a` (`Path::join`): `b` itself when absolute, else `a`,
/// a `/` unless `a` is empty or ends with one, then `b`.
pub open spec fn join(a: Seq<char>, b: Seq<char>) -> Seq<char> {
    if is_rooted(b) {
        b
    } else if a.len() == 0 || a.last() == '/' {
        a + b
    } else {
        a + seq!['/'] + b
    }
}

/// Index of the last `.` of `name`, if any.
pub open spec fn last_dot(name: Seq<char>) -> Option<int>
    decreases name.len(),
{
    if name.len() == 0 {
        None
    } else if name.last() == '.' {
        Some(name.len() - 1)
    } else {
        last_dot(name.drop_last())
    }
}

/// The stem of a file name: the text before its last `.`, or the whole name
/// when it has no `.` past its first character.
pub open spec fn name_stem(name: Seq<char>) -> Seq<char> {
    match last_dot(name) {
        Some(i) => if i == 0 {
            name
        } else {
            name.take(i)
        },
        None => name,
    }
}

/// The extension of a file name: the text after its last `.`, when that
/// `.` is not its first character.
pub open spec fn name_extension(name: Seq<char>) -> Option<Seq<char>> {
    match last_dot(name) {
        Some(i) => if i == 0 {
            None
        } else {
            Some(name.skip(i + 1))
        },
        None => None,
    }
}

/// `Path::file_stem`.
pub open spec fn file_stem(p: Seq<char>) -> Option<Seq<char>> {
    match file_name(p) {
        Some(n) => Some(name_stem(n)),
        None => None,
    }
}

/// `Path::extension`.
pub open spec fn extension(p: Seq<char>) -> Option<Seq<char>> {
    match file_name(p) {
        Some(n) => name_extension(n),
        None => None,
    }
}

/// The character sequences held by a vector of character vectors.
pub open spec fn views(v: Seq<Vec<char>>) -> Seq<Seq<char>> {
    v.map_values(|x: Vec<char>| x@)
}

/// Pushing a vector pushes its view.
pub proof fn lemma_views_push(v: Seq<Vec<char>>, x: Vec<char>)
    ensures
        views(v.push(x)) =~= views(v).push(x@),
{
    assert forall|k: int| 0 <= k < v.len() + 1 implies #[trigger] views(v.push(x))[k] == views(
        v,
    ).push(x@)[k] by {
        if k < v.len() {
            assert(v.push(x)[k] == v[k]);
        }
    }
}

/// The components of a path, computed.
pub fn path_components(s: &[char]) -> (out: Vec<Vec<char>>)
    ensures
        views(out@) == components(s@),
{
    let mut out: Vec<Vec<char>> = Vec::new();
    let mut i: usize = 0;
    if s.len() > 0 && s[0] == '/' {
        let mut root: Vec<char> = Vec::new();
        root.push('/');
        out.push(root);
        i = 1;
        assert(views(out@) =~= seq![seq!['/']]);
    } else if s.len() > 0 && s[0] == '.' && (s.len() == 1 || s[1] == '/') {
        assert(!is_rooted(s@) && has_cur_dir(s@));
        let mut cur: Vec<char> = Vec::new();
        cur.push('.');
        out.push(cur);
        i = 1;
        assert(views(out@) =~= seq![seq!['.']]);
    }
    proof {
        if i == 0 {
            assert(s@.skip(0) =~= s@);
            assert(views(out@) =~= Seq::<Seq<char>>::empty());
        }
    }
    assert(views(out@) + body_components(s@.skip(i as int)) =~= components(s@));
    while i < s.len()
        invariant
            i <= s.len(),
            components(s@) == views(out@) + body_components(s@.skip(i as int)),
        decreases s.len() - i,
    {
        let ghost rest = s@.skip(i as int);
        let mut j: usize = i;
        while j < s.len() && s[j] != '/'
            invariant
                i <= j <= s.len(),
                rest == s@.skip(i as int),
                seg_len(rest) == (j - i) + seg_len(s@.skip(j as int)),
                forall|k: int| i <= k < j ==> s@[k] != '/',
            decreases s.len() - j,
        {
            assert(s@.skip(j as int).skip(1) =~= s@.skip(j + 1));
            j = j + 1;
        }
        assert(seg_len(s@.skip(j as int)) == 0);
        let mut seg: Vec<char> = Vec::new();
        extend_chars(&mut seg, &s[i..j]);
        assert(seg@ =~= rest.take((j - i) as int));
        let keep = seg.len() > 0 && !(seg.len() == 1 && seg[0] == '.');
        assert(keep == keeps(seg@)) by {
            if seg@.len() == 1 && seg@[0] == '.' {
                assert(seg@ =~= seq!['.']);
            }
            if seg@ == seq!['.'] {
                assert(seg@.len() == 1);
            }
        }
        let ghost before = views(out@);
        if keep {
            out.push(seg);
            assert(views(out@) =~= before.push(seg@));
        }
        if j < s.len() {
            assert(rest.skip((j - i) + 1) =~= s@.skip(j + 1));
            i = j + 1;
        } else {
            assert(s@.skip(j as int) =~= Seq::<char>::empty());
            i = j;
        }
        assert(views(out@) + body_components(s@.skip(i as int)) =~= before + body_components(
            rest,
        ));
    }
    assert(s@.skip(i as int) =~= Seq::<char>::empty());
    assert(views(out@) =~= views(out@) + Seq::<Seq<char>>::empty());
    out
}

/// Whether the first `n` component lists agree.
fn comps_agree(a: &Vec<Vec<char>>, b: &Vec<Vec<char>>, n: usize) -> (res: bool)
    requires
        n <= a.len(),
        n <= b.len(),
    ensures
        res == (views(a@).take(n as int) == views(b@).take(n as int)),
{
    let mut i: usize = 0;
    while i < n
        invariant
            i <= n,
            n <= a.len(),
            n <= b.len(),
            views(a@).take(i as int) == views(b@).take(i as int),
        decreases n - i,
    {
        if !chars_eq(a[i].as_slice(), b[i].as_slice()) {
            assert(views(a@).take(n as int)[i as int] != views(b@).take(n as int)[i as int]);
            return false;
        }
        assert(views(a@).take(i + 1) =~= views(a@).take(i as int).push(a@[i as int]@));
        assert(views(b@).take(i + 1) =~= views(b@).take(i as int).push(b@[i as int]@));
        i = i + 1;
    }
    true
}

/// Whether two paths name the same location (`Path`'s `==`).
pub fn paths_equal(a: &[char], b: &[char]) -> (res: bool)
    ensures
        res == same_path(a@, b@),
{
    let ca = path_components(a);
    let cb = path_components(b);
    if ca.len() != cb.len() {
        return false;
    }
    let r = comps_agree(&ca, &cb, ca.len());
    assert(views(ca@).take(ca.len() as int) =~= views(ca@));
    assert(views(cb@).take(cb.len() as int) =~= views(cb@));
    r
}

/// Whether the components of `base` begin those of `p`.
pub fn starts_with_path(p: &[char], base: &[char]) -> (res: bool)
    ensures
        res == path_starts_with(p@, base@),
{
    let cp = path_components(p);
    let cb = path_components(base);
    if cb.len() > cp.len() {
        return false;
    }
    let r = comps_agree(&cp, &cb, cb.len());
    assert(views(cb@).take(cb.len() as int) =~= views(cb@));
    r
}

/// `Path::file_name`, computed.
pub fn file_name_of(p: &[char]) -> (res: Option<Vec<char>>)
    ensures
        match res {
            Some(n) => file_name(p@) == Some(n@),
            None => file_name(p@).is_none(),
        },
{
    let mut c = path_components(p);
    if c.len() == 0 {
        return None;
    }
    let ghost cv = views(c@);
    let last = c.pop().unwrap();
    assert(last@ == cv.last());
    let is_root = last.len() == 1 && last[0] == '/';
    let is_cur = last.len() == 1 && last[0] == '.';
    let is_parent = last.len() == 2 && last[0] == '.' && last[1] == '.';
    assert(is_root == (last@ == seq!['/'])) by {
        if last@ == seq!['/'] { assert(last@.len() == 1); }
        if is_root { assert(last@ =~= seq!['/']); }
    }
    assert(is_cur == (last@ == seq!['.'])) by {
        if last@ == seq!['.'] { assert(last@.len() == 1); }
        if is_cur { assert(last@ =~= seq!['.']); }
    }
    assert(is_parent == (last@ == seq!['.', '.'])) by {
        if last@ == seq!['.', '.'] { assert(last@.len() == 2); }
        if is_parent { assert(last@ =~= seq!['.', '.']); }
    }
    if is_root || is_cur || is_parent {
        None
    } else {
        Some(last)
    }
}

/// `Path::join`, computed.
pub fn join_paths(a: &[char], b: &[char]) -> (out: Vec<char>)
    ensures
        out@ == join(a@, b@),
{
    let mut out: Vec<char> = Vec::new();
    if b.len() > 0 && b[0] == '/' {
        extend_chars(&mut out, b);
        assert(out@ =~= b@);
        return out;
    }
    extend_chars(&mut out, a);
    if a.len() > 0 && a[a.len() - 1] != '/' {
        out.push('/');
    }
    extend_chars(&mut out, b);
    proof {
        if a@.len() > 0 && a@.last() != '/' {
            assert(out@ =~= a@ + seq!['/'] + b@);
        } else {
            assert(out@ =~= a@ + b@);
        }
    }
    out
}

/// Index of the last `.` in `name`, computed.
pub fn last_dot_of(name: &[char]) -> (res: Option<usize>)
    ensures
        match res {
            Some(i) => last_dot(name@) == Some(i as int) && i < name@.len(),
            None => last_dot(name@).is_none(),
        },
{
    let mut k: usize = name.len();
    assert(name@.take(k as int) =~= name@);
    while k > 0
        invariant
            k <= name.len(),
            last_dot(name@) == last_dot(name@.take(k as int)),
        decreases k,
    {
        if name[k - 1] == '.' {
            assert(name@.take(k as int).last() == '.');
            return Some(k - 1);
        }
        assert(name@.take(k as int).drop_last() =~= name@.take(k - 1));
        k = k - 1;
    }
    None
}

/// The stem and extension of a file name, computed.
pub fn split_name(name: &[char]) -> (res: (Vec<char>, Option<Vec<char>>))
    ensures
        res.0@ == name_stem(name@),
        match res.1 {
            Some(e) => name_extension(name@) == Some(e@),
            None => name_extension(name@).is_none(),
        },
{
    let mut stem: Vec<char> = Vec::new();
    let found = last_dot_of(name);
    match found {
        Some(i) => {
            assert(i < name.len());
            if i == 0 {
                extend_chars(&mut stem, name);
                assert(stem@ =~= name@);
                (stem, None)
            } else {
                extend_chars(&mut stem, &name[0..i]);
                let mut ext: Vec<char> = Vec::new();
                extend_chars(&mut ext, &name[i + 1..name.len()]);
                assert(stem@ =~= name@.take(i as int));
                assert(ext@ =~= name@.skip(i + 1));
                (stem, Some(ext))
            }
        },
        None => {
            extend_chars(&mut stem, name);
            assert(stem@ =~= name@);
            (stem, None)
        },
    }
}

/// Where the body of a path starts: after its root or leading `.`.
pub open spec fn body_start(s: Seq<char>) -> int {
    if is_rooted(s) || has_cur_dir(s) {
        1
    } else {
        0
    }
}

/// Start of the last segment of `t` that lies at or after index `lo`.
pub open spec fn seg_begin(t: Seq<char>, lo: int) -> int
    decreases t.len(),
{
    if t.len() == 0 || t.len() <= lo {
        lo
    } else if t.last() == '/' {
        t.len() as int
    } else {
        seg_begin(t.drop_last(), lo)
    }
}

/// The last segment begins within the text, and never before `lo`.
pub proof fn lemma_seg_begin_bounds(t: Seq<char>, lo: int)
    requires
        0 <= lo,
    ensures
        lo <= seg_begin(t, lo),
        t.len() > lo ==> seg_begin(t, lo) <= t.len(),
        t.len() > lo && seg_begin(t, lo) > lo ==> t[seg_begin(t, lo) - 1] == '/',
    decreases t.len(),
{
    if t.len() > lo && t.last() != '/' {
        lemma_seg_begin_bounds(t.drop_last(), lo);
    }
}

/// Where `t` is cut when its last segment is dropped together with the `/`
/// before it.
pub open spec fn cut_point(t: Seq<char>, lo: int) -> int {
    let b = seg_begin(t, lo);
    if b > lo {
        b - 1
    } else {
        lo
    }
}

/// `t` without trailing separators and trailing `.` segments, never cut
/// below index `lo`.
pub open spec fn trim_tail(t: Seq<char>, lo: int) -> Seq<char>
    decreases t.len(),
{
    if lo < 0 || t.len() <= lo {
        t
    } else if keeps(t.skip(seg_begin(t, lo))) {
        t
    } else {
        proof {
            lemma_seg_begin_bounds(t, lo);
        }
        trim_tail(t.take(cut_point(t, lo)), lo)
    }
}

/// `Path::parent`: the path without its last component, as text.
pub open spec fn parent_path(s: Seq<char>) -> Option<Seq<char>> {
    let lo = body_start(s);
    let t = trim_tail(s, lo);
    if t.len() > lo {
        Some(trim_tail(t.take(cut_point(t, lo)), lo))
    } else if has_cur_dir(s) {
        Some(seq![])
    } else {
        None
    }
}

/// Start of the last segment of `t[..n]` at or after `lo`, computed.
fn seg_begin_at(t: &[char], n: usize, lo: usize) -> (b: usize)
    requires
        lo <= n <= t.len(),
    ensures
        b == seg_begin(t@.take(n as int), lo as int),
        lo <= b <= n,
{
    let mut k: usize = n;
    while k > lo && t[k - 1] != '/'
        invariant
            lo <= k <= n <= t.len(),
            seg_begin(t@.take(n as int), lo as int) == seg_begin(t@.take(k as int), lo as int),
        decreases k,
    {
        assert(t@.take(k as int).drop_last() =~= t@.take(k - 1));
        k = k - 1;
    }
    k
}

/// Whether `t[b..n]` names a component, computed.
fn keeps_at(t: &[char], b: usize, n: usize) -> (res: bool)
    requires
        b <= n <= t.len(),
    ensures
        res == keeps(t@.take(n as int).skip(b as int)),
{
    let ghost seg = t@.take(n as int).skip(b as int);
    let res = n > b && !(n - b == 1 && t[b] == '.');
    assert(res == keeps(seg)) by {
        if seg.len() == 1 && seg[0] == '.' {
            assert(seg =~= seq!['.']);
        }
        if seg == seq!['.'] {
            assert(seg.len() == 1);
        }
    }
    res
}

/// The length that `trim_tail` keeps of `t[..n]`.
fn trim_tail_len(t: &[char], n: usize, lo: usize) -> (m: usize)
    requires
        lo <= n <= t.len(),
    ensures
        m <= n,
        t@.take(m as int) == trim_tail(t@.take(n as int), lo as int),
{
    let mut m: usize = n;
    while m > lo
        invariant
            lo <= m <= n <= t.len(),
            trim_tail(t@.take(n as int), lo as int) == trim_tail(t@.take(m as int), lo as int),
        decreases m,
    {
        let b = seg_begin_at(t, m, lo);
        if keeps_at(t, b, m) {
            return m;
        }
        proof {
            lemma_seg_begin_bounds(t@.take(m as int), lo as int);
        }
        let cut = if b > lo { b - 1 } else { lo };
        assert(t@.take(m as int).take(cut as int) =~= t@.take(cut as int));
        m = cut;
    }
    m
}

/// `Path::parent`, computed.
pub fn parent_of(s: &[char]) -> (res: Option<Vec<char>>)
    ensures
        match res {
            Some(p) => parent_path(s@) == Some(p@),
            None => parent_path(s@).is_none(),
        },
{
    let lo: usize = if s.len() > 0 && (s[0] == '/' || (s[0] == '.' && (s.len() == 1 || s[1]
        == '/'))) {
        1
    } else {
        0
    };
    assert(lo == body_start(s@));
    assert(s@.take(s.len() as int) =~= s@);
    let n = trim_tail_len(s, s.len(), lo);
    if n > lo {
        let b = seg_begin_at(s, n, lo);
        let cut = if b > lo { b - 1 } else { lo };
        assert(s@.take(n as int).take(cut as int) =~= s@.take(cut as int));
        let m = trim_tail_len(s, cut, lo);
        let mut out: Vec<char> = Vec::new();
        extend_chars(&mut out, &s[0..m]);
        assert(out@ =~= s@.take(m as int));
        Some(out)
    } else if s.len() > 0 && s[0] == '.' && (s.len() == 1 || s[1] == '/') {
        let out: Vec<char> = Vec::new();
        assert(out@ =~= Seq::<char>::empty());
        Some(out)
    } else {
        None
    }
}

/// A segment: a text without separators.
pub open spec fn no_sep(n: Seq<char>) -> bool {
    forall|i: int| 0 <= i < n.len() ==> n[i] != '/'
}

/// The first segment ends at the first separator.
pub proof fn lemma_seg_len(s: Seq<char>)
    ensures
        seg_len(s) <= s.len(),
        no_sep(s.take(seg_len(s) as int)),
        seg_len(s) < s.len() ==> s[seg_len(s) as int] == '/',
    decreases s.len(),
{
    if s.len() > 0 && s[0] != '/' {
        lemma_seg_len(s.skip(1));
        assert forall|i: int| 0 <= i < seg_len(s) implies s.take(seg_len(s) as int)[i] != '/' by {
            if i > 0 {
                assert(s.take(seg_len(s) as int)[i] == s.skip(1).take(seg_len(s.skip(1)) as int)[i
                    - 1]);
            }
        }
    }
}

/// A text without separators is one segment.
pub proof fn lemma_seg_len_whole(n: Seq<char>)
    requires
        no_sep(n),
    ensures
        seg_len(n) == n.len(),
    decreases n.len(),
{
    if n.len() > 0 {
        lemma_seg_len_whole(n.skip(1));
    }
}

/// The first segment is unchanged by what follows a separator.
pub proof fn lemma_seg_len_append(b: Seq<char>, x: Seq<char>)
    requires
        x.len() > 0,
        x[0] == '/',
    ensures
        seg_len(b + x) == seg_len(b),
    decreases b.len(),
{
    if b.len() > 0 && b[0] != '/' {
        assert((b + x).skip(1) =~= b.skip(1) + x);
        lemma_seg_len_append(b.skip(1), x);
    } else if b.len() == 0 {
        assert(b + x =~= x);
    }
}

/// Components are ordinary segments.
pub proof fn lemma_body_components_clean(s: Seq<char>)
    ensures
        forall|i: int|
            0 <= i < body_components(s).len() ==> keeps(#[trigger] body_components(s)[i])
                && no_sep(body_components(s)[i]),
    decreases s.len(),
{
    if s.len() > 0 {
        let k = seg_len(s);
        lemma_seg_len(s);
        let rest = if k < s.len() {
            s.skip(k as int + 1)
        } else {
            seq![]
        };
        lemma_body_components_clean(rest);
        let seg = s.take(k as int);
        if keeps(seg) {
            assert forall|i: int| 0 <= i < body_components(s).len() implies keeps(
                #[trigger] body_components(s)[i],
            ) && no_sep(body_components(s)[i]) by {
                if i > 0 {
                    assert(body_components(s)[i] == body_components(rest)[i - 1]);
                }
            }
        }
    }
}

/// Appending a separator and a segment appends one component.
pub proof fn lemma_body_append(b: Seq<char>, n: Seq<char>)
    requires
        no_sep(n),
        keeps(n),
    ensures
        body_components(b + seq!['/'] + n) == body_components(b).push(n),
    decreases b.len(),
{
    let s = b + seq!['/'] + n;
    lemma_seg_len_whole(n);
    assert(n.take(n.len() as int) =~= n);
    assert(body_components(n) == seq![n] + body_components(seq![]));
    if b.len() == 0 {
        assert(s =~= seq!['/'] + n);
        assert(seg_len(s) == 0);
        assert(s.skip(1) =~= n);
        assert(!keeps(s.take(0)));
    } else {
        let k = seg_len(b);
        lemma_seg_len(b);
        lemma_seg_len_append(b, seq!['/'] + n);
        assert(s =~= b + (seq!['/'] + n));
        assert(s.take(k as int) =~= b.take(k as int));
        if k < b.len() {
            assert(s.skip(k as int + 1) =~= b.skip(k as int + 1) + seq!['/'] + n);
            lemma_body_append(b.skip(k as int + 1), n);
        } else {
            assert(s.skip(k as int + 1) =~= n);
            assert(b.take(k as int) =~= b);
        }
    }
}

/// Joining a directory and a plain name gives a path whose file name is
/// that name.
pub proof fn lemma_join_keeps_name(dir: Seq<char>, n: Seq<char>)
    requires
        no_sep(n),
        keeps(n),
        n != seq!['.', '.'],
    ensures
        file_name(join(dir, n)) == Some(n),
{
    lemma_seg_len_whole(n);
    assert(n.take(n.len() as int) =~= n);
    assert(body_components(n) == seq![n] + body_components(seq![]));
    assert(n != seq!['/']) by {
        if n == seq!['/'] {
            assert(n[0] == '/');
        }
    }
    if !is_rooted(n) && dir.len() == 0 {
        assert(join(dir, n) =~= n);
        assert(!has_cur_dir(n)) by {
            if has_cur_dir(n) {
                if n.len() == 1 {
                    assert(n =~= seq!['.']);
                }
            }
        }
        assert(components(n) =~= seq![n]);
    } else if dir.len() > 0 {
        let d = if dir.last() == '/' {
            dir.drop_last()
        } else {
            dir
        };
        let s = join(dir, n);
        assert(s =~= d + seq!['/'] + n);
        if d.len() == 0 {
            assert(is_rooted(s));
            assert(s.skip(1) =~= n);
            assert(components(s) =~= seq![seq!['/']] + seq![n]);
        } else if is_rooted(d) {
            assert(is_rooted(s));
            assert(s.skip(1) =~= d.skip(1) + seq!['/'] + n);
            lemma_body_append(d.skip(1), n);
        } else if has_cur_dir(d) {
            assert(!is_rooted(s) && has_cur_dir(s));
            assert(s.skip(1) =~= d.skip(1) + seq!['/'] + n);
            lemma_body_append(d.skip(1), n);
        } else {
            assert(!is_rooted(s) && !has_cur_dir(s));
            lemma_body_append(d, n);
        }
    }
}

/// The file name of a path is a plain name.
pub proof fn lemma_file_name_plain(p: Seq<char>)
    ensures
        file_name(p) matches Some(n) ==> no_sep(n) && keeps(n) && n != seq!['.', '.'],
{
    if file_name(p) is Some {
        let c = components(p);
        if is_rooted(p) {
            lemma_body_components_clean(p.skip(1));
            assert(c.last() == body_components(p.skip(1))[c.len() - 2]);
        } else if has_cur_dir(p) {
            lemma_body_components_clean(p.skip(1));
            assert(c.last() == body_components(p.skip(1))[c.len() - 2]);
        } else {
            lemma_body_components_clean(p);
        }
    }
}

} // verus!
