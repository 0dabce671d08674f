//! The summary table of organized files.
use vstd::prelude::*;

use crate::text::{count_of, extend_chars, extend_str, from_chars, to_chars};

verus! {

/// One organized file, as reported in the summary table.
#[derive(Debug, Clone)]
pub struct Row {
    pub rule: String,
    pub file: String,
    pub dest: String,
}

/// The mathematical content of a `Row`.
#[verifier::ext_equal]
pub struct RowView {
    pub rule: Seq<char>,
    pub file: Seq<char>,
    pub dest: Seq<char>,
}

impl View for Row {
    type V = RowView;

    open spec fn view(&self) -> RowView {
        RowView { rule: self.rule@, file: self.file@, dest: self.dest@ }
    }
}

/// The views of a list of rows.
pub open spec fn row_views(rows: Seq<Row>) -> Seq<RowView> {
    rows.map_values(|r: Row| r@)
}

/// Widest destination column, in characters.
pub const DEST_CAP: usize = 80;

/// `n` spaces.
pub open spec fn spaces(n: nat) -> Seq<char> {
    Seq::new(n, |i: int| ' ')
}

/// The ellipsis that marks cut text.
pub open spec fn ellipsis() -> char {
    '\u{2026}'
}

/// `s` padded with spaces to `w` characters, or cut to `w - 1` characters
/// followed by an ellipsis when longer.
pub open spec fn fit_spec(s: Seq<char>, w: nat) -> Seq<char> {
    if s.len() <= w {
        s + spaces((w - s.len()) as nat)
    } else {
        s.take(w - 1).push(ellipsis())
    }
}

/// `s` padded with spaces to `w` characters, or, when longer, an ellipsis
/// followed by its last `w - 1` characters.
pub open spec fn fit_tail_spec(s: Seq<char>, w: nat) -> Seq<char> {
    if s.len() <= w {
        s + spaces((w - s.len()) as nat)
    } else {
        seq![ellipsis()] + s.skip(s.len() - (w - 1))
    }
}

fn push_spaces(out: &mut Vec<char>, n: usize)
    ensures
        final(out)@ == old(out)@ + spaces(n as nat),
{
    let mut i: usize = 0;
    while i < n
        invariant
            i <= n,
            out@ == old(out)@ + spaces(i as nat),
        decreases n - i,
    {
        out.push(' ');
        i = i + 1;
        assert(out@ =~= old(out)@ + spaces(i as nat));
    }
}

/// Appends `s` fitted to `w` characters, cut at the end.
fn push_fit(out: &mut Vec<char>, s: &[char], w: usize)
    requires
        s@.len() <= w || w > 0,
    ensures
        final(out)@ == old(out)@ + fit_spec(s@, w as nat),
{
    if s.len() <= w {
        extend_chars(out, s);
        push_spaces(out, w - s.len());
        assert(out@ =~= old(out)@ + fit_spec(s@, w as nat));
    } else {
        extend_chars(out, &s[0..w - 1]);
        out.push('\u{2026}');
        assert(out@ =~= old(out)@ + fit_spec(s@, w as nat));
    }
}

/// Appends `s` fitted to `w` characters, cut at the start.
fn push_fit_tail(out: &mut Vec<char>, s: &[char], w: usize)
    requires
        s@.len() <= w || w > 0,
    ensures
        final(out)@ == old(out)@ + fit_tail_spec(s@, w as nat),
{
    if s.len() <= w {
        extend_chars(out, s);
        push_spaces(out, w - s.len());
        assert(out@ =~= old(out)@ + fit_tail_spec(s@, w as nat));
    } else {
        out.push('\u{2026}');
        extend_chars(out, &s[s.len() - (w - 1)..s.len()]);
        assert(out@ =~= old(out)@ + fit_tail_spec(s@, w as nat));
    }
}

/// Pads `s` to `w` characters, truncating its end with an ellipsis when
/// it is longer.
pub fn fit(s: &str, w: usize) -> (out: String)
    requires
        s@.len() <= w || w > 0,
    ensures
        out@ == fit_spec(s@, w as nat),
{
    let cs = to_chars(s);
    let mut out: Vec<char> = Vec::new();
    push_fit(&mut out, cs.as_slice(), w);
    assert(out@ =~= fit_spec(s@, w as nat));
    from_chars(out.as_slice())
}

/// Pads `s` to `w` characters, keeping its tail (the informative end of a
/// path) behind an ellipsis when it is longer.
pub fn fit_tail(s: &str, w: usize) -> (out: String)
    requires
        s@.len() <= w || w > 0,
    ensures
        out@ == fit_tail_spec(s@, w as nat),
{
    let cs = to_chars(s);
    let mut out: Vec<char> = Vec::new();
    push_fit_tail(&mut out, cs.as_slice(), w);
    assert(out@ =~= fit_tail_spec(s@, w as nat));
    from_chars(out.as_slice())
}

/// The larger of two naturals.
pub open spec fn max_nat(a: nat, b: nat) -> nat {
    if a >= b {
        a
    } else {
        b
    }
}

/// The width a row's field takes in column `col` (0: rule, 1: file,
/// 2: destination, capped at `DEST_CAP`).
pub open spec fn field_width(r: RowView, col: int) -> nat {
    if col == 0 {
        r.rule.len()
    } else if col == 1 {
        r.file.len()
    } else if r.dest.len() <= 80 {
        r.dest.len()
    } else {
        80
    }
}

/// The width of column `col`: the widest of its header (`header` characters)
/// and its fields.
pub open spec fn col_width(rows: Seq<RowView>, col: int, header: nat) -> nat
    decreases rows.len(),
{
    if rows.len() == 0 {
        header
    } else {
        max_nat(col_width(rows.drop_last(), col, header), field_width(rows.last(), col))
    }
}

/// A horizontal rule `w + 2` characters long.
pub open spec fn bar(w: nat) -> Seq<char> {
    Seq::new(w + 2, |i: int| '\u{2500}')
}

/// A border line of the table with the given corner and joint characters.
pub open spec fn border(l: char, m: char, r: char, nw: nat, fw: nat, dw: nat) -> Seq<char> {
    seq![l] + bar(nw) + seq![m] + bar(fw) + seq![m] + bar(dw) + seq![r]
}

/// The separator line between header and rows, and between groups.
pub open spec fn sep_line(nw: nat, fw: nat, dw: nat) -> Seq<char> {
    border('\u{251C}', '\u{253C}', '\u{2524}', nw, fw, dw)
}

/// A data line: three fitted cells between vertical bars.
pub open spec fn cell_line(
    a: Seq<char>,
    b: Seq<char>,
    c: Seq<char>,
    nw: nat,
    fw: nat,
    dw: nat,
) -> Seq<char> {
    seq!['\u{2502}', ' '] + fit_spec(a, nw) + seq![' ', '\u{2502}', ' '] + fit_spec(b, fw) + seq![
        ' ',
        '\u{2502}',
        ' ',
    ] + fit_tail_spec(c, dw) + seq![' ', '\u{2502}']
}

/// The lines for the rows: one per row, with a separator wherever the rule
/// changes from the row before.
pub open spec fn body_lines(rows: Seq<RowView>, nw: nat, fw: nat, dw: nat) -> Seq<Seq<char>>
    decreases rows.len(),
{
    if rows.len() == 0 {
        seq![]
    } else {
        let r = rows.last();
        let prev = body_lines(rows.drop_last(), nw, fw, dw);
        let with_sep = if rows.len() >= 2 && rows[rows.len() - 2].rule != r.rule {
            prev.push(sep_line(nw, fw, dw))
        } else {
            prev
        };
        with_sep.push(cell_line(r.rule, r.file, r.dest, nw, fw, dw))
    }
}

/// All lines of the table: top border, header, separator, rows, bottom
/// border; each column as wide as its widest entry.
pub open spec fn table_lines(rows: Seq<RowView>) -> Seq<Seq<char>> {
    let nw = col_width(rows, 0, 4);
    let fw = col_width(rows, 1, 4);
    let dw = col_width(rows, 2, 11);
    seq![
        border('\u{250C}', '\u{252C}', '\u{2510}', nw, fw, dw),
        cell_line("RULE"@, "FILE"@, "DESTINATION"@, nw, fw, dw),
        sep_line(nw, fw, dw),
    ] + body_lines(rows, nw, fw, dw) + seq![border('\u{2514}', '\u{2534}', '\u{2518}', nw, fw, dw)]
}

/// Lines joined with newlines.
pub open spec fn join_lines(lines: Seq<Seq<char>>) -> Seq<char>
    decreases lines.len(),
{
    if lines.len() == 0 {
        seq![]
    } else if lines.len() == 1 {
        lines[0]
    } else {
        join_lines(lines.drop_last()) + seq!['\n'] + lines.last()
    }
}

/// The width of a column, computed.
fn column_width(rows: &[Row], col: usize, header: usize) -> (w: usize)
    requires
        col <= 2,
    ensures
        w == col_width(row_views(rows@), col as int, header as nat),
        w >= header,
        forall|k: int| 0 <= k < rows@.len() ==> field_width(rows@[k]@, col as int) <= w,
{
    let mut w: usize = header;
    let mut i: usize = 0;
    while i < rows.len()
        invariant
            i <= rows.len(),
            col <= 2,
            w == col_width(row_views(rows@.take(i as int)), col as int, header as nat),
            w >= header,
            forall|k: int| 0 <= k < i ==> field_width(rows@[k]@, col as int) <= w,
        decreases rows.len() - i,
    {
        let f: usize = if col == 0 {
            let c = to_chars(rows[i].rule.as_str());
            c.len()
        } else if col == 1 {
            let c = to_chars(rows[i].file.as_str());
            c.len()
        } else {
            let c = to_chars(rows[i].dest.as_str());
            if c.len() <= DEST_CAP {
                c.len()
            } else {
                DEST_CAP
            }
        };
        assert(f == field_width(rows@[i as int]@, col as int));
        assert(row_views(rows@.take(i + 1)).drop_last() =~= row_views(rows@.take(i as int)));
        assert(row_views(rows@.take(i + 1)).last() == rows@[i as int]@);
        if f > w {
            w = f;
        }
        i = i + 1;
    }
    assert(rows@.take(rows.len() as int) =~= rows@);
    w
}

fn push_bar(out: &mut Vec<char>, w: usize)
    requires
        w + 2 <= usize::MAX,
    ensures
        final(out)@ == old(out)@ + bar(w as nat),
{
    let mut i: usize = 0;
    while i < w + 2
        invariant
            i <= w + 2,
            w + 2 <= usize::MAX,
            out@ == old(out)@ + Seq::new(i as nat, |k: int| '\u{2500}'),
        decreases w + 2 - i,
    {
        out.push('\u{2500}');
        i = i + 1;
        assert(out@ =~= old(out)@ + Seq::new(i as nat, |k: int| '\u{2500}'));
    }
}

fn border_line(l: char, m: char, r: char, nw: usize, fw: usize, dw: usize) -> (out: Vec<char>)
    requires
        nw + 2 <= usize::MAX,
        fw + 2 <= usize::MAX,
        dw + 2 <= usize::MAX,
    ensures
        out@ == border(l, m, r, nw as nat, fw as nat, dw as nat),
{
    let mut out: Vec<char> = Vec::new();
    out.push(l);
    push_bar(&mut out, nw);
    out.push(m);
    push_bar(&mut out, fw);
    out.push(m);
    push_bar(&mut out, dw);
    out.push(r);
    assert(out@ =~= border(l, m, r, nw as nat, fw as nat, dw as nat));
    out
}

fn data_line(a: &[char], b: &[char], c: &[char], nw: usize, fw: usize, dw: usize) -> (out: Vec<
    char,
>)
    requires
        a@.len() <= nw || nw > 0,
        b@.len() <= fw || fw > 0,
        c@.len() <= dw || dw > 0,
    ensures
        out@ == cell_line(a@, b@, c@, nw as nat, fw as nat, dw as nat),
{
    let mut out: Vec<char> = Vec::new();
    out.push('\u{2502}');
    out.push(' ');
    push_fit(&mut out, a, nw);
    out.push(' ');
    out.push('\u{2502}');
    out.push(' ');
    push_fit(&mut out, b, fw);
    out.push(' ');
    out.push('\u{2502}');
    out.push(' ');
    push_fit_tail(&mut out, c, dw);
    out.push(' ');
    out.push('\u{2502}');
    assert(out@ =~= cell_line(a@, b@, c@, nw as nat, fw as nat, dw as nat));
    out
}

/// Renders organized files as a table: auto-width columns, a header, and
/// rows grouped by rule with a separator between groups.
pub fn render_table(rows: &[Row]) -> (out: String)
    requires
        rows@.len() < usize::MAX / 2,
        forall|k: int|
            0 <= k < rows@.len() ==> (#[trigger] rows@[k]).rule@.len() < usize::MAX / 2
                && rows@[k].file@.len() < usize::MAX / 2,
    ensures
        out@ == join_lines(table_lines(row_views(rows@))),
{
    let nw = column_width(rows, 0, 4);
    let fw = column_width(rows, 1, 4);
    let dw = column_width(rows, 2, 11);
    let ghost rv = row_views(rows@);
    assert(nw < usize::MAX / 2) by {
        assert forall|k: int| 0 <= k < rv.len() implies field_width(#[trigger] rv[k], 0) <= (
        usize::MAX / 2 - 1) as nat by {
            assert(rv[k] == rows@[k]@);
        }
        lemma_col_width_bound(rv, 0, 4, (usize::MAX / 2 - 1) as nat);
    }
    assert(fw < usize::MAX / 2) by {
        assert forall|k: int| 0 <= k < rv.len() implies field_width(#[trigger] rv[k], 1) <= (
        usize::MAX / 2 - 1) as nat by {
            assert(rv[k] == rows@[k]@);
        }
        lemma_col_width_bound(rv, 1, 4, (usize::MAX / 2 - 1) as nat);
    }
    assert(dw <= 80) by {
        lemma_col_width_bound(rv, 2, 11, 80);
    }
    let mut lines: Vec<Vec<char>> = Vec::new();
    lines.push(border_line('\u{250C}', '\u{252C}', '\u{2510}', nw, fw, dw));
    let hr = to_chars("RULE");
    let hf = to_chars("FILE");
    let hd = to_chars("DESTINATION");
    lines.push(data_line(hr.as_slice(), hf.as_slice(), hd.as_slice(), nw, fw, dw));
    lines.push(border_line('\u{251C}', '\u{253C}', '\u{2524}', nw, fw, dw));
    let ghost head = crate::path::views(lines@);
    let mut i: usize = 0;
    while i < rows.len()
        invariant
            i <= rows.len(),
            rv == row_views(rows@),
            nw == col_width(rv, 0, 4),
            fw == col_width(rv, 1, 4),
            dw == col_width(rv, 2, 11),
            nw >= 4,
            fw >= 4,
            dw >= 11,
            nw < usize::MAX / 2,
            fw < usize::MAX / 2,
            dw <= 80,
            forall|k: int| 0 <= k < rows@.len() ==> field_width(rows@[k]@, 0) <= nw,
            forall|k: int| 0 <= k < rows@.len() ==> field_width(rows@[k]@, 1) <= fw,
            crate::path::views(lines@) == head + body_lines(
                rv.take(i as int),
                nw as nat,
                fw as nat,
                dw as nat,
            ),
        decreases rows.len() - i,
    {
        let ghost before = crate::path::views(lines@);
        let ghost sub = rv.take(i + 1);
        assert(sub.drop_last() =~= rv.take(i as int));
        assert(sub.last() == rows@[i as int]@);
        let rule = to_chars(rows[i].rule.as_str());
        let ghost mid = before;
        if i > 0 {
            let prev = to_chars(rows[i - 1].rule.as_str());
            assert(sub[sub.len() - 2] == rows@[i - 1]@);
            if !crate::text::chars_eq(prev.as_slice(), rule.as_slice()) {
                let sep = border_line('\u{251C}', '\u{253C}', '\u{2524}', nw, fw, dw);
                proof {
                    crate::path::lemma_views_push(lines@, sep);
                    mid = before.push(sep@);
                }
                lines.push(sep);
            }
        }
        assert(crate::path::views(lines@) == mid);
        assert(mid == if sub.len() >= 2 && sub[sub.len() - 2].rule != sub.last().rule {
            before.push(sep_line(nw as nat, fw as nat, dw as nat))
        } else {
            before
        });
        let file = to_chars(rows[i].file.as_str());
        let dest = to_chars(rows[i].dest.as_str());
        let line = data_line(rule.as_slice(), file.as_slice(), dest.as_slice(), nw, fw, dw);
        proof {
            crate::path::lemma_views_push(lines@, line);
        }
        lines.push(line);
        assert(crate::path::views(lines@) == mid.push(line@));
        assert(head + body_lines(sub, nw as nat, fw as nat, dw as nat) =~= mid.push(line@));
        i = i + 1;
    }
    let bottom = border_line('\u{2514}', '\u{2534}', '\u{2518}', nw, fw, dw);
    proof {
        crate::path::lemma_views_push(lines@, bottom);
    }
    lines.push(bottom);
    assert(rv.take(rows.len() as int) =~= rv);
    assert(crate::path::views(lines@) =~= table_lines(rv)) by {
        reveal_strlit("RULE");
        reveal_strlit("FILE");
        reveal_strlit("DESTINATION");
    }
    join_with_newlines(&lines)
}

/// A column is no wider than a bound that its header and all its fields
/// respect.
proof fn lemma_col_width_bound(rows: Seq<RowView>, col: int, header: nat, b: nat)
    requires
        header <= b,
        forall|k: int| 0 <= k < rows.len() ==> field_width(#[trigger] rows[k], col) <= b,
    ensures
        col_width(rows, col, header) <= b,
    decreases rows.len(),
{
    if rows.len() > 0 {
        let d = rows.drop_last();
        assert forall|k: int| 0 <= k < d.len() implies field_width(#[trigger] d[k], col) <= b by {
            assert(d[k] == rows[k]);
        }
        lemma_col_width_bound(d, col, header, b);
        assert(field_width(rows[rows.len() - 1], col) <= b);
    }
}

/// Joins lines with newlines.
fn join_with_newlines(lines: &Vec<Vec<char>>) -> (out: String)
    ensures
        out@ == join_lines(crate::path::views(lines@)),
{
    let mut out: Vec<char> = Vec::new();
    let ghost ls = crate::path::views(lines@);
    let mut i: usize = 0;
    while i < lines.len()
        invariant
            i <= lines.len(),
            ls == crate::path::views(lines@),
            out@ == join_lines(ls.take(i as int)),
        decreases lines.len() - i,
    {
        let ghost sub = ls.take(i + 1);
        assert(sub.drop_last() =~= ls.take(i as int));
        assert(sub.last() == lines@[i as int]@);
        if i > 0 {
            out.push('\n');
        }
        extend_chars(&mut out, lines[i].as_slice());
        proof {
            if i == 0 {
                assert(out@ =~= sub[0]);
            } else {
                assert(out@ =~= join_lines(ls.take(i as int)) + seq!['\n'] + sub.last());
            }
        }
        i = i + 1;
    }
    assert(ls.take(lines.len() as int) =~= ls);
    from_chars(out.as_slice())
}

/// Code-point order of texts (the order of `String`'s `cmp`: byte order of
/// UTF-8 agrees with it).
pub open spec fn text_lt(a: Seq<char>, b: Seq<char>) -> bool
    decreases a.len(),
{
    if a.len() == 0 {
        b.len() > 0
    } else if b.len() == 0 {
        false
    } else if a[0] != b[0] {
        (a[0] as u32) < (b[0] as u32)
    } else {
        text_lt(a.skip(1), b.skip(1))
    }
}

/// Order of rows: by rule, then by file.
pub open spec fn row_lt(a: RowView, b: RowView) -> bool {
    text_lt(a.rule, b.rule) || (a.rule == b.rule && text_lt(a.file, b.file))
}

/// Where a row goes in a sorted list: before the first row that it
/// precedes, after every row it does not.
pub open spec fn insert_pos(s: Seq<RowView>, x: RowView) -> int
    decreases s.len(),
{
    if s.len() == 0 {
        0
    } else if row_lt(x, s[0]) {
        0
    } else {
        1 + insert_pos(s.skip(1), x)
    }
}

/// Rows sorted by rule then file; rows that compare equal keep their order
/// (what the stable `sort_by` gives).
pub open spec fn sorted_rows(s: Seq<RowView>) -> Seq<RowView>
    decreases s.len(),
{
    if s.len() == 0 {
        seq![]
    } else {
        let prev = sorted_rows(s.drop_last());
        prev.insert(insert_pos(prev, s.last()), s.last())
    }
}

/// An insertion position lies within the list.
pub proof fn lemma_insert_pos_bound(s: Seq<RowView>, x: RowView)
    ensures
        0 <= insert_pos(s, x) <= s.len(),
    decreases s.len(),
{
    if s.len() > 0 && !row_lt(x, s[0]) {
        lemma_insert_pos_bound(s.skip(1), x);
    }
}

/// Whether `a` precedes `b` in code-point order.
fn text_less(a: &[char], b: &[char]) -> (res: bool)
    ensures
        res == text_lt(a@, b@),
{
    let mut i: usize = 0;
    assert(a@.skip(0) =~= a@);
    assert(b@.skip(0) =~= b@);
    while i < a.len() && i < b.len() && a[i] == b[i]
        invariant
            i <= a.len(),
            i <= b.len(),
            text_lt(a@, b@) == text_lt(a@.skip(i as int), b@.skip(i as int)),
        decreases a.len() - i,
    {
        assert(a@.skip(i as int).skip(1) =~= a@.skip(i + 1));
        assert(b@.skip(i as int).skip(1) =~= b@.skip(i + 1));
        i = i + 1;
    }
    if i >= a.len() {
        i < b.len()
    } else if i >= b.len() {
        false
    } else {
        (a[i] as u32) < (b[i] as u32)
    }
}

/// Whether row `a` precedes row `b`.
fn row_less(a: &Row, b: &Row) -> (res: bool)
    ensures
        res == row_lt(a@, b@),
{
    let ar = to_chars(a.rule.as_str());
    let br = to_chars(b.rule.as_str());
    if text_less(ar.as_slice(), br.as_slice()) {
        return true;
    }
    if !crate::text::chars_eq(ar.as_slice(), br.as_slice()) {
        return false;
    }
    let af = to_chars(a.file.as_str());
    let bf = to_chars(b.file.as_str());
    text_less(af.as_slice(), bf.as_slice())
}

/// A copy of a row.
fn copy_row(r: &Row) -> (out: Row)
    ensures
        out@ == r@,
{
    Row { rule: r.rule.clone(), file: r.file.clone(), dest: r.dest.clone() }
}

/// Sorts rows by rule, then file, keeping the order of equal rows.
pub fn sort_rows(rows: &Vec<Row>) -> (out: Vec<Row>)
    ensures
        row_views(out@) == sorted_rows(row_views(rows@)),
{
    let ghost rv = row_views(rows@);
    let mut out: Vec<Row> = Vec::new();
    let mut i: usize = 0;
    while i < rows.len()
        invariant
            i <= rows.len(),
            rv == row_views(rows@),
            row_views(out@) == sorted_rows(rv.take(i as int)),
        decreases rows.len() - i,
    {
        let ghost prev = row_views(out@);
        let ghost sub = rv.take(i + 1);
        assert(sub.drop_last() =~= rv.take(i as int));
        assert(sub.last() == rows@[i as int]@);
        let x = &rows[i];
        let mut k: usize = 0;
        assert(prev.skip(0) =~= prev);
        while k < out.len() && !row_less(x, &out[k])
            invariant
                k <= out.len(),
                prev == row_views(out@),
                insert_pos(prev, x@) == k + insert_pos(prev.skip(k as int), x@),
            decreases out.len() - k,
        {
            assert(prev.skip(k as int)[0] == out@[k as int]@);
            assert(prev.skip(k as int).skip(1) =~= prev.skip(k + 1));
            k = k + 1;
        }
        proof {
            if k < out.len() {
                assert(prev.skip(k as int)[0] == out@[k as int]@);
            }
        }
        assert(insert_pos(prev, x@) == k);
        let ghost before = out@;
        out.insert(k, copy_row(x));
        assert(row_views(out@) =~= prev.insert(k as int, x@)) by {
            assert forall|t: int| 0 <= t < out@.len() implies #[trigger] row_views(out@)[t]
                == prev.insert(k as int, x@)[t] by {
                if t < k {
                    assert(out@[t] == before[t]);
                } else if t > k {
                    assert(out@[t] == before[t - 1]);
                }
            }
        }
        i = i + 1;
    }
    assert(rv.take(rows.len() as int) =~= rv);
    out
}

/// The rule names of a list of rows.
pub open spec fn rule_names(rows: Seq<RowView>) -> Set<Seq<char>> {
    rows.map_values(|r: RowView| r.rule).to_set()
}

/// The rows counted once per rule name, by first appearance.
pub open spec fn distinct_rules(rows: Seq<RowView>) -> nat
    decreases rows.len(),
{
    if rows.len() == 0 {
        0
    } else {
        let prev = rows.drop_last();
        if exists|j: int| 0 <= j < prev.len() && (#[trigger] prev[j]).rule == rows.last().rule {
            distinct_rules(prev)
        } else {
            distinct_rules(prev) + 1
        }
    }
}

/// Counting rows by first appearance counts the distinct rule names.
pub proof fn lemma_distinct_rules(rows: Seq<RowView>)
    ensures
        distinct_rules(rows) == rule_names(rows).len(),
        rule_names(rows).finite(),
    decreases rows.len(),
{
    broadcast use vstd::seq_lib::seq_to_set_is_finite;

    if rows.len() == 0 {
        assert(rule_names(rows) =~= Set::<Seq<char>>::empty());
    } else {
        let prev = rows.drop_last();
        let x = rows.last();
        lemma_distinct_rules(prev);
        let mp = prev.map_values(|r: RowView| r.rule);
        assert(rows.map_values(|r: RowView| r.rule) =~= mp.push(x.rule));
        mp.lemma_push_to_set_commute(x.rule);
        assert(rule_names(rows) == rule_names(prev).insert(x.rule));
        if exists|j: int| 0 <= j < prev.len() && (#[trigger] prev[j]).rule == x.rule {
            let j = choose|j: int| 0 <= j < prev.len() && (#[trigger] prev[j]).rule == x.rule;
            assert(mp[j] == x.rule);
            assert(rule_names(prev).contains(x.rule));
            assert(rule_names(rows) =~= rule_names(prev));
        } else {
            assert(!rule_names(prev).contains(x.rule)) by {
                if mp.to_set().contains(x.rule) {
                    let j = choose|j: int| 0 <= j < mp.len() && mp[j] == x.rule;
                    assert(prev[j].rule == x.rule);
                }
            }
        }
    }
}

/// The number of distinct rule names among rows, computed.
fn count_rules(rows: &Vec<Row>) -> (n: usize)
    ensures
        n == rule_names(row_views(rows@)).len(),
{
    let ghost rv = row_views(rows@);
    let mut n: usize = 0;
    let mut i: usize = 0;
    while i < rows.len()
        invariant
            i <= rows.len(),
            rv == row_views(rows@),
            n == distinct_rules(rv.take(i as int)),
            n <= i,
        decreases rows.len() - i,
    {
        let ghost sub = rv.take(i + 1);
        assert(sub.drop_last() =~= rv.take(i as int));
        let r = to_chars(rows[i].rule.as_str());
        let mut seen = false;
        let mut j: usize = 0;
        while j < i
            invariant
                j <= i,
                i < rows.len(),
                rv == row_views(rows@),
                r@ == rv[i as int].rule,
                seen == exists|t: int| 0 <= t < j && (#[trigger] rv[t]).rule == rv[i as int].rule,
            decreases i - j,
        {
            let q = to_chars(rows[j].rule.as_str());
            assert(q@ == rv[j as int].rule);
            if crate::text::chars_eq(q.as_slice(), r.as_slice()) {
                seen = true;
            }
            j = j + 1;
        }
        assert(seen == exists|t: int|
            0 <= t < sub.drop_last().len() && (#[trigger] sub.drop_last()[t]).rule
                == sub.last().rule) by {
            if seen {
                let t = choose|t: int| 0 <= t < i && (#[trigger] rv[t]).rule == rv[i as int].rule;
                assert(sub.drop_last()[t] == rv[t]);
            }
            if exists|t: int|
                0 <= t < sub.drop_last().len() && (#[trigger] sub.drop_last()[t]).rule
                    == sub.last().rule {
                let t = choose|t: int|
                    0 <= t < sub.drop_last().len() && (#[trigger] sub.drop_last()[t]).rule
                        == sub.last().rule;
                assert(rv[t] == sub.drop_last()[t]);
            }
        }
        if !seen {
            n = n + 1;
        }
        i = i + 1;
    }
    proof {
        assert(rv.take(rows.len() as int) =~= rv);
        lemma_distinct_rules(rv);
    }
    n
}

/// The report printed for a batch of organized files: counts, then the
/// table of the rows sorted by rule and file.
pub open spec fn summary_spec(rows: Seq<RowView>) -> Seq<char> {
    "harbor: "@ + crate::text::decimal(rows.len()) + " file(s) organized in "@
        + crate::text::decimal(rule_names(rows).len()) + " categories\n"@ + join_lines(
        table_lines(sorted_rows(rows)),
    ) + seq!['\n']
}

/// Sorting keeps the rows, so it keeps their number.
pub proof fn lemma_sorted_len(s: Seq<RowView>)
    ensures
        sorted_rows(s).len() == s.len(),
    decreases s.len(),
{
    if s.len() > 0 {
        lemma_sorted_len(s.drop_last());
        lemma_insert_pos_bound(sorted_rows(s.drop_last()), s.last());
    }
}

/// Takes the batch of organized rows: none gives no report; otherwise the
/// rows are sorted in place and the report is returned. The batch is then
/// empty.
pub fn flush_text(rows: &mut Vec<Row>) -> (res: Option<String>)
    requires
        old(rows)@.len() < usize::MAX / 2,
        forall|k: int|
            0 <= k < old(rows)@.len() ==> (#[trigger] old(rows)@[k]).rule@.len() < usize::MAX / 2
                && old(rows)@[k].file@.len() < usize::MAX / 2,
    ensures
        old(rows)@.len() == 0 ==> res.is_none(),
        old(rows)@.len() > 0 ==> res.is_some() && res->0@ == summary_spec(row_views(old(rows)@)),
        final(rows)@.len() == 0,
{
    if rows.len() == 0 {
        return None;
    }
    let ghost orig = row_views(rows@);
    let sorted = sort_rows(rows);
    let cats = count_rules(rows);
    let n = rows.len();
    proof {
        lemma_sorted_len(orig);
        assert(row_views(sorted@).len() == sorted@.len());
        assert forall|k: int| 0 <= k < sorted@.len() implies (#[trigger] sorted@[k]).rule@.len()
            < usize::MAX / 2 && sorted@[k].file@.len() < usize::MAX / 2 by {
            lemma_sorted_members(orig, k);
            let j = choose|j: int| 0 <= j < orig.len() && orig[j] == sorted_rows(orig)[k];
            assert(row_views(sorted@)[k] == sorted@[k]@);
            assert(orig[j] == rows@[j]@);
        }
    }
    let table = render_table(sorted.as_slice());
    let mut out = to_chars("harbor: ");
    crate::text::push_decimal(&mut out, n as u64);
    extend_str(&mut out, " file(s) organized in ");
    crate::text::push_decimal(&mut out, cats as u64);
    extend_str(&mut out, " categories\n");
    let t = to_chars(table.as_str());
    extend_chars(&mut out, t.as_slice());
    out.push('\n');
    assert(out@ =~= summary_spec(orig));
    *rows = sorted;
    rows.clear();
    Some(from_chars(out.as_slice()))
}

/// Rows collected before the report is printed without waiting for the
/// next quiet interval.
pub const FLUSH_BATCH: usize = 50;

/// Adds the row of an organized file to the batch. Once the batch holds
/// `FLUSH_BATCH` rows it is reported at once (as `flush_text` does) and
/// emptied; until then nothing is reported.
pub fn record_row(rows: &mut Vec<Row>, row: Row) -> (res: Option<String>)
    requires
        old(rows)@.len() + 1 < usize::MAX / 2,
        forall|k: int|
            0 <= k < old(rows)@.len() ==> (#[trigger] old(rows)@[k]).rule@.len() < usize::MAX / 2
                && old(rows)@[k].file@.len() < usize::MAX / 2,
        row.rule@.len() < usize::MAX / 2,
        row.file@.len() < usize::MAX / 2,
    ensures
        old(rows)@.len() + 1 >= FLUSH_BATCH ==> res.is_some() && res->0@ == summary_spec(
            row_views(old(rows)@.push(row)),
        ) && final(rows)@.len() == 0,
        old(rows)@.len() + 1 < FLUSH_BATCH ==> res.is_none() && final(rows)@ == old(rows)@.push(
            row,
        ),
{
    let ghost all = old(rows)@.push(row);
    rows.push(row);
    assert(rows@ == all);
    if rows.len() >= FLUSH_BATCH {
        assert forall|k: int| 0 <= k < rows@.len() implies (#[trigger] rows@[k]).rule@.len()
            < usize::MAX / 2 && rows@[k].file@.len() < usize::MAX / 2 by {
            if k < rows@.len() - 1 {
                assert(rows@[k] == old(rows)@[k]);
            }
        }
        flush_text(rows)
    } else {
        None
    }
}

/// Every row of the sorted list is one of the input rows.
pub proof fn lemma_sorted_members(s: Seq<RowView>, k: int)
    requires
        0 <= k < sorted_rows(s).len(),
    ensures
        exists|j: int| 0 <= j < s.len() && s[j] == sorted_rows(s)[k],
    decreases s.len(),
{
    lemma_sorted_len(s);
    let prev = sorted_rows(s.drop_last());
    let p = insert_pos(prev, s.last());
    lemma_insert_pos_bound(prev, s.last());
    lemma_sorted_len(s.drop_last());
    if k == p {
        assert(s[s.len() - 1] == sorted_rows(s)[k]);
    } else {
        let k2 = if k < p { k } else { k - 1 };
        assert(sorted_rows(s)[k] == prev[k2]);
        lemma_sorted_members(s.drop_last(), k2);
        let j = choose|j: int| 0 <= j < s.drop_last().len() && s.drop_last()[j] == prev[k2];
        assert(s[j] == s.drop_last()[j]);
    }
}

/// Code-point order is transitive.
pub proof fn lemma_text_lt_transitive(a: Seq<char>, b: Seq<char>, c: Seq<char>)
    requires
        text_lt(a, b),
        text_lt(b, c),
    ensures
        text_lt(a, c),
    decreases a.len(),
{
    if a.len() > 0 && b.len() > 0 && c.len() > 0 && a[0] == b[0] && b[0] == c[0] {
        lemma_text_lt_transitive(a.skip(1), b.skip(1), c.skip(1));
    }
}

/// Code-point order is irreflexive.
pub proof fn lemma_text_lt_irreflexive(a: Seq<char>)
    ensures
        !text_lt(a, a),
    decreases a.len(),
{
    if a.len() > 0 {
        lemma_text_lt_irreflexive(a.skip(1));
    }
}

/// Row order is transitive.
pub proof fn lemma_row_lt_transitive(a: RowView, b: RowView, c: RowView)
    requires
        row_lt(a, b),
        row_lt(b, c),
    ensures
        row_lt(a, c),
{
    if text_lt(a.rule, b.rule) && text_lt(b.rule, c.rule) {
        lemma_text_lt_transitive(a.rule, b.rule, c.rule);
    } else if text_lt(a.rule, b.rule) {
    } else if text_lt(b.rule, c.rule) {
    } else {
        lemma_text_lt_transitive(a.file, b.file, c.file);
    }
}

/// No row of the list is preceded by a later one.
pub open spec fn is_sorted(s: Seq<RowView>) -> bool {
    forall|i: int, j: int| 0 <= i < j < s.len() ==> !row_lt(#[trigger] s[j], #[trigger] s[i])
}

/// The insertion position splits the list: the row precedes none of the
/// rows before it and precedes the row at it.
pub proof fn lemma_insert_pos_split(s: Seq<RowView>, x: RowView)
    ensures
        forall|k: int| 0 <= k < insert_pos(s, x) ==> !row_lt(x, #[trigger] s[k]),
        insert_pos(s, x) < s.len() ==> row_lt(x, s[insert_pos(s, x)]),
    decreases s.len(),
{
    lemma_insert_pos_bound(s, x);
    if s.len() > 0 && !row_lt(x, s[0]) {
        let t = s.skip(1);
        lemma_insert_pos_split(t, x);
        assert forall|k: int| 0 <= k < insert_pos(s, x) implies !row_lt(x, #[trigger] s[k]) by {
            if k > 0 {
                assert(s[k] == t[k - 1]);
            }
        }
        assert(insert_pos(s, x) == 1 + insert_pos(t, x));
        lemma_insert_pos_bound(t, x);
        if insert_pos(s, x) < s.len() {
            assert(s[insert_pos(s, x)] == t[insert_pos(t, x)]);
        }
    }
}

/// Sorting gives a sorted list: rows come in order of rule, then file.
pub proof fn lemma_sorted_rows_sorted(s: Seq<RowView>)
    ensures
        is_sorted(sorted_rows(s)),
    decreases s.len(),
{
    if s.len() > 0 {
        let prev = sorted_rows(s.drop_last());
        let x = s.last();
        lemma_sorted_rows_sorted(s.drop_last());
        lemma_insert_pos_split(prev, x);
        lemma_insert_pos_bound(prev, x);
        let p = insert_pos(prev, x);
        let r = prev.insert(p, x);
        assert forall|i: int, j: int| 0 <= i < j < r.len() implies !row_lt(
            #[trigger] r[j],
            #[trigger] r[i],
        ) by {
            if j < p {
                assert(r[i] == prev[i] && r[j] == prev[j]);
            } else if j == p {
                assert(r[i] == prev[i]);
            } else if i < p {
                assert(r[i] == prev[i] && r[j] == prev[j - 1]);
                if i < j - 1 {
                }
            } else if i == p {
                assert(r[j] == prev[j - 1]);
                if row_lt(prev[j - 1], x) {
                    if j - 1 > p {
                        lemma_row_lt_transitive(prev[j - 1], x, prev[p]);
                    } else {
                        lemma_row_lt_transitive(prev[p], x, prev[p]);
                        lemma_text_lt_irreflexive(prev[p].rule);
                        lemma_text_lt_irreflexive(prev[p].file);
                    }
                }
            } else {
                assert(r[i] == prev[i - 1] && r[j] == prev[j - 1]);
            }
        }
    }
}

/// Sorting neither loses nor adds rows: the multiset of rows is kept.
pub proof fn lemma_sorted_rows_permutes(s: Seq<RowView>)
    ensures
        sorted_rows(s).to_multiset() == s.to_multiset(),
    decreases s.len(),
{
    broadcast use vstd::seq_lib::group_to_multiset_ensures;

    if s.len() == 0 {
        assert(sorted_rows(s) =~= s);
    } else {
        let prev = sorted_rows(s.drop_last());
        let x = s.last();
        lemma_sorted_rows_permutes(s.drop_last());
        lemma_insert_pos_bound(prev, x);
        let p = insert_pos(prev, x);
        let r = prev.insert(p, x);
        assert(r.remove(p) =~= prev);
        assert(r[p] == x);
        assert(r.to_multiset().count(x) > 0) by {
            assert(r.contains(x));
        }
        assert(r.to_multiset() =~= prev.to_multiset().insert(x)) by {
            assert(r.remove(p).to_multiset() =~= r.to_multiset().remove(x));
        }
        assert(s =~= s.drop_last().push(x));
    }
}

/// A column is at least as wide as its header.
pub proof fn lemma_col_width_at_least(rows: Seq<RowView>, col: int, header: nat)
    ensures
        col_width(rows, col, header) >= header,
    decreases rows.len(),
{
    if rows.len() > 0 {
        lemma_col_width_at_least(rows.drop_last(), col, header);
    }
}

/// Fitting gives exactly the asked width.
proof fn lemma_fit_len(s: Seq<char>, w: nat)
    requires
        w > 0,
    ensures
        fit_spec(s, w).len() == w,
        fit_tail_spec(s, w).len() == w,
{
}

/// Separators and data lines are as wide as the borders.
proof fn lemma_line_widths(a: Seq<char>, b: Seq<char>, c: Seq<char>, nw: nat, fw: nat, dw: nat)
    requires
        nw > 0,
        fw > 0,
        dw > 0,
    ensures
        sep_line(nw, fw, dw).len() == nw + fw + dw + 10,
        cell_line(a, b, c, nw, fw, dw).len() == nw + fw + dw + 10,
        border('\u{250C}', '\u{252C}', '\u{2510}', nw, fw, dw).len() == nw + fw + dw + 10,
        border('\u{2514}', '\u{2534}', '\u{2518}', nw, fw, dw).len() == nw + fw + dw + 10,
{
    lemma_fit_len(a, nw);
    lemma_fit_len(b, fw);
    lemma_fit_len(c, dw);
}

/// Every body line is as wide as the borders.
proof fn lemma_body_lines_width(rows: Seq<RowView>, nw: nat, fw: nat, dw: nat)
    requires
        nw > 0,
        fw > 0,
        dw > 0,
    ensures
        forall|i: int|
            0 <= i < body_lines(rows, nw, fw, dw).len() ==> (#[trigger] body_lines(
                rows,
                nw,
                fw,
                dw,
            )[i]).len() == nw + fw + dw + 10,
    decreases rows.len(),
{
    if rows.len() > 0 {
        let r = rows.last();
        lemma_body_lines_width(rows.drop_last(), nw, fw, dw);
        lemma_line_widths(r.rule, r.file, r.dest, nw, fw, dw);
        let prev = body_lines(rows.drop_last(), nw, fw, dw);
        let with_sep = if rows.len() >= 2 && rows[rows.len() - 2].rule != r.rule {
            prev.push(sep_line(nw, fw, dw))
        } else {
            prev
        };
        assert(body_lines(rows, nw, fw, dw) == with_sep.push(cell_line(r.rule, r.file, r.dest, nw, fw, dw)));
        assert forall|i: int| 0 <= i < with_sep.len() implies (#[trigger] with_sep[i]).len() == nw + fw
            + dw + 10 by {
            if i < prev.len() {
                assert(with_sep[i] == prev[i]);
            }
        }
    }
}

/// The table is aligned: all its lines have the same number of
/// characters.
pub proof fn lemma_table_aligned(rows: Seq<RowView>)
    ensures
        forall|i: int, j: int|
            0 <= i < table_lines(rows).len() && 0 <= j < table_lines(rows).len() ==> (
            #[trigger] table_lines(rows)[i]).len() == (#[trigger] table_lines(rows)[j]).len(),
{
    let nw = col_width(rows, 0, 4);
    let fw = col_width(rows, 1, 4);
    let dw = col_width(rows, 2, 11);
    lemma_col_width_at_least(rows, 0, 4);
    lemma_col_width_at_least(rows, 1, 4);
    lemma_col_width_at_least(rows, 2, 11);
    lemma_body_lines_width(rows, nw, fw, dw);
    let t = table_lines(rows);
    let b = body_lines(rows, nw, fw, dw);
    lemma_line_widths("RULE"@, "FILE"@, "DESTINATION"@, nw, fw, dw);
    assert forall|i: int| 0 <= i < t.len() implies (#[trigger] t[i]).len() == nw + fw + dw + 10 by {
        if 3 <= i < 3 + b.len() {
            assert(t[i] == b[i - 3]);
        }
    }
}

/// How many times the rule changes from one row to the next.
pub open spec fn rule_changes(rows: Seq<RowView>) -> nat
    decreases rows.len(),
{
    if rows.len() < 2 {
        0
    } else {
        rule_changes(rows.drop_last()) + if rows[rows.len() - 2].rule != rows.last().rule {
            1nat
        } else {
            0nat
        }
    }
}

proof fn lemma_body_lines_count(rows: Seq<RowView>, nw: nat, fw: nat, dw: nat)
    ensures
        body_lines(rows, nw, fw, dw).len() == rows.len() + rule_changes(rows),
    decreases rows.len(),
{
    if rows.len() > 0 {
        lemma_body_lines_count(rows.drop_last(), nw, fw, dw);
        if rows.len() >= 2 {
            assert(rows.drop_last()[rows.len() - 2] == rows[rows.len() - 2]);
        }
    }
}

/// Rows are grouped by rule: the table has one line per row, a separator
/// wherever the rule changes, and four frame lines (top border, header,
/// header separator, bottom border).
pub proof fn lemma_table_line_count(rows: Seq<RowView>)
    ensures
        table_lines(rows).len() == rows.len() + rule_changes(rows) + 4,
{
    lemma_body_lines_count(rows, col_width(rows, 0, 4), col_width(rows, 1, 4), col_width(rows, 2, 11));
}

/// The vertical bar between cells.
pub open spec fn vbar() -> char {
    '\u{2502}'
}

/// `c` does not occur in `s`.
pub open spec fn free_of(s: Seq<char>, c: char) -> bool {
    forall|i: int| 0 <= i < s.len() ==> s[i] != c
}

proof fn lemma_count_concat(a: Seq<char>, b: Seq<char>, c: char)
    ensures
        count_of(a + b, c) == count_of(a, c) + count_of(b, c),
    decreases b.len(),
{
    if b.len() > 0 {
        assert((a + b).drop_last() =~= a + b.drop_last());
        lemma_count_concat(a, b.drop_last(), c);
    } else {
        assert(a + b =~= a);
    }
}

proof fn lemma_count_absent(s: Seq<char>, c: char)
    requires
        free_of(s, c),
    ensures
        count_of(s, c) == 0,
    decreases s.len(),
{
    if s.len() > 0 {
        lemma_count_absent(s.drop_last(), c);
    }
}

proof fn lemma_fit_free(s: Seq<char>, w: nat, c: char)
    requires
        w > 0,
        c != ' ',
        c != ellipsis(),
        free_of(s, c),
    ensures
        free_of(fit_spec(s, w), c),
        free_of(fit_tail_spec(s, w), c),
{
    let f = fit_spec(s, w);
    let t = fit_tail_spec(s, w);
    assert forall|i: int| 0 <= i < f.len() implies f[i] != c by {
        if s.len() <= w && i >= s.len() {
            assert(f[i] == ' ');
        } else if s.len() <= w {
            assert(f[i] == s[i]);
        } else if i < w - 1 {
            assert(f[i] == s[i]);
        }
    }
    assert forall|i: int| 0 <= i < t.len() implies t[i] != c by {
        if s.len() <= w && i >= s.len() {
            assert(t[i] == ' ');
        } else if s.len() <= w {
            assert(t[i] == s[i]);
        } else if i > 0 {
            assert(t[i] == s[s.len() - (w - 1) + i - 1]);
        }
    }
}

/// A data line has exactly four vertical bars when its cells have none.
proof fn lemma_cell_line_bars(a: Seq<char>, b: Seq<char>, c: Seq<char>, nw: nat, fw: nat, dw: nat)
    requires
        nw > 0,
        fw > 0,
        dw > 0,
        free_of(a, vbar()),
        free_of(b, vbar()),
        free_of(c, vbar()),
    ensures
        count_of(cell_line(a, b, c, nw, fw, dw), vbar()) == 4,
        cell_line(a, b, c, nw, fw, dw)[0] == vbar(),
{
    let v = vbar();
    let p1 = seq![v, ' '];
    let p2 = seq![' ', v, ' '];
    let p3 = seq![' ', v, ' '];
    let p4 = seq![' ', v];
    let fa = fit_spec(a, nw);
    let fb = fit_spec(b, fw);
    let tc = fit_tail_spec(c, dw);
    lemma_fit_free(a, nw, v);
    lemma_fit_free(b, fw, v);
    lemma_fit_free(c, dw, v);
    lemma_count_absent(fa, v);
    lemma_count_absent(fb, v);
    lemma_count_absent(tc, v);
    reveal_with_fuel(count_of, 4);
    assert(count_of(p1, v) == 1);
    assert(count_of(p2, v) == 1);
    assert(count_of(p3, v) == 1);
    assert(count_of(p4, v) == 1);
    lemma_count_concat(p1, fa, v);
    lemma_count_concat(p1 + fa, p2, v);
    lemma_count_concat(p1 + fa + p2, fb, v);
    lemma_count_concat(p1 + fa + p2 + fb, p3, v);
    lemma_count_concat(p1 + fa + p2 + fb + p3, tc, v);
    lemma_count_concat(p1 + fa + p2 + fb + p3 + tc, p4, v);
}

/// Border and separator lines hold no vertical bar.
proof fn lemma_border_bars(l: char, m: char, r: char, nw: nat, fw: nat, dw: nat)
    requires
        l != vbar(),
        m != vbar(),
        r != vbar(),
    ensures
        count_of(border(l, m, r, nw, fw, dw), vbar()) == 0,
        border(l, m, r, nw, fw, dw)[0] == l,
{
    let b = border(l, m, r, nw, fw, dw);
    assert forall|i: int| 0 <= i < b.len() implies b[i] != vbar() by {
        let x1 = seq![l] + bar(nw);
        let x2 = x1 + seq![m];
        let x3 = x2 + bar(fw);
        let x4 = x3 + seq![m];
        let x5 = x4 + bar(dw);
        if i < 1 {
        } else if i < x1.len() {
            assert(b[i] == bar(nw)[i - 1]);
        } else if i < x2.len() {
        } else if i < x3.len() {
            assert(b[i] == bar(fw)[i - x2.len()]);
        } else if i < x4.len() {
        } else if i < x5.len() {
            assert(b[i] == bar(dw)[i - x4.len()]);
        }
    }
    lemma_count_absent(b, vbar());
}

proof fn lemma_body_lines_bars(rows: Seq<RowView>, nw: nat, fw: nat, dw: nat)
    requires
        nw > 0,
        fw > 0,
        dw > 0,
        forall|k: int|
            0 <= k < rows.len() ==> free_of((#[trigger] rows[k]).rule, vbar()) && free_of(
                rows[k].file,
                vbar(),
            ) && free_of(rows[k].dest, vbar()),
    ensures
        forall|i: int|
            0 <= i < body_lines(rows, nw, fw, dw).len() ==> count_of(
                #[trigger] body_lines(rows, nw, fw, dw)[i],
                vbar(),
            ) == (if body_lines(rows, nw, fw, dw)[i][0] == vbar() {
                4nat
            } else {
                0nat
            }),
    decreases rows.len(),
{
    if rows.len() > 0 {
        let r = rows.last();
        assert(rows.last() == rows[rows.len() - 1]);
        lemma_body_lines_bars(rows.drop_last(), nw, fw, dw);
        lemma_cell_line_bars(r.rule, r.file, r.dest, nw, fw, dw);
        lemma_border_bars('\u{251C}', '\u{253C}', '\u{2524}', nw, fw, dw);
        let prev = body_lines(rows.drop_last(), nw, fw, dw);
        let with_sep = if rows.len() >= 2 && rows[rows.len() - 2].rule != r.rule {
            prev.push(sep_line(nw, fw, dw))
        } else {
            prev
        };
        let body = body_lines(rows, nw, fw, dw);
        assert(body == with_sep.push(cell_line(r.rule, r.file, r.dest, nw, fw, dw)));
        assert forall|i: int| 0 <= i < body.len() implies count_of(#[trigger] body[i], vbar()) == (
        if body[i][0] == vbar() {
            4nat
        } else {
            0nat
        }) by {
            if i < prev.len() {
                assert(body[i] == prev[i]);
            }
        }
    }
}

/// Every line that starts with a vertical bar (the header and one per
/// row) has exactly four, one before each cell and one at the end, and
/// the frame lines have none, when no cell text holds a vertical bar.
pub proof fn lemma_table_bars(rows: Seq<RowView>)
    requires
        forall|k: int|
            0 <= k < rows.len() ==> free_of((#[trigger] rows[k]).rule, vbar()) && free_of(
                rows[k].file,
                vbar(),
            ) && free_of(rows[k].dest, vbar()),
    ensures
        forall|i: int|
            0 <= i < table_lines(rows).len() ==> count_of(#[trigger] table_lines(rows)[i], vbar())
                == (if table_lines(rows)[i][0] == vbar() {
                4nat
            } else {
                0nat
            }),
{
    let nw = col_width(rows, 0, 4);
    let fw = col_width(rows, 1, 4);
    let dw = col_width(rows, 2, 11);
    lemma_col_width_at_least(rows, 0, 4);
    lemma_col_width_at_least(rows, 1, 4);
    lemma_col_width_at_least(rows, 2, 11);
    reveal_strlit("RULE");
    reveal_strlit("FILE");
    reveal_strlit("DESTINATION");
    lemma_cell_line_bars("RULE"@, "FILE"@, "DESTINATION"@, nw, fw, dw);
    lemma_border_bars('\u{250C}', '\u{252C}', '\u{2510}', nw, fw, dw);
    lemma_border_bars('\u{251C}', '\u{253C}', '\u{2524}', nw, fw, dw);
    lemma_border_bars('\u{2514}', '\u{2534}', '\u{2518}', nw, fw, dw);
    lemma_body_lines_bars(rows, nw, fw, dw);
    let t = table_lines(rows);
    let b = body_lines(rows, nw, fw, dw);
    assert forall|i: int| 0 <= i < t.len() implies count_of(#[trigger] t[i], vbar()) == (if t[i][0]
        == vbar() {
        4nat
    } else {
        0nat
    }) by {
        if 3 <= i < 3 + b.len() {
            assert(t[i] == b[i - 3]);
        }
    }
}

/// `s` cut at every newline: the text of each line, in order (a text
/// with `n` newlines has `n + 1` lines).
pub open spec fn split_lines(s: Seq<char>) -> Seq<Seq<char>>
    decreases s.len(),
{
    if s.len() == 0 {
        seq![seq![]]
    } else {
        let p = split_lines(s.drop_last());
        if s.last() == '\n' {
            p.push(seq![])
        } else {
            p.update(p.len() - 1, p.last().push(s.last()))
        }
    }
}

proof fn lemma_split_nonempty(s: Seq<char>)
    ensures
        split_lines(s).len() >= 1,
    decreases s.len(),
{
    if s.len() > 0 {
        lemma_split_nonempty(s.drop_last());
    }
}

/// Text without newlines extends the last line.
proof fn lemma_split_extend(x: Seq<char>, b: Seq<char>)
    requires
        free_of(b, '\n'),
    ensures
        split_lines(x + b) == split_lines(x).update(
            split_lines(x).len() - 1,
            split_lines(x).last() + b,
        ),
    decreases b.len(),
{
    lemma_split_nonempty(x);
    if b.len() == 0 {
        assert(x + b =~= x);
        assert(split_lines(x).last() + b =~= split_lines(x).last());
        assert(split_lines(x).update(split_lines(x).len() - 1, split_lines(x).last())
            =~= split_lines(x));
    } else {
        let b2 = b.drop_last();
        assert(free_of(b2, '\n')) by {
            assert forall|i: int| 0 <= i < b2.len() implies b2[i] != '\n' by {
                assert(b2[i] == b[i]);
            }
        }
        lemma_split_extend(x, b2);
        assert((x + b).drop_last() =~= x + b2);
        assert((x + b).last() == b.last());
        assert(b.last() != '\n');
        assert((split_lines(x).last() + b2).push(b.last()) =~= split_lines(x).last() + b);
        assert(split_lines(x + b) =~= split_lines(x).update(
            split_lines(x).len() - 1,
            split_lines(x).last() + b,
        ));
    }
}

/// Lines without newlines, joined with newlines, split back into
/// themselves.
proof fn lemma_split_join(lines: Seq<Seq<char>>)
    requires
        lines.len() >= 1,
        forall|i: int| 0 <= i < lines.len() ==> free_of(#[trigger] lines[i], '\n'),
    ensures
        split_lines(join_lines(lines)) == lines,
    decreases lines.len(),
{
    if lines.len() == 1 {
        lemma_split_extend(seq![], lines[0]);
        assert(seq![] + lines[0] =~= lines[0]);
        assert(split_lines(seq![]) =~= seq![seq![]]);
        assert(split_lines(lines[0]) =~= lines);
    } else {
        let prev = lines.drop_last();
        assert forall|i: int| 0 <= i < prev.len() implies free_of(#[trigger] prev[i], '\n') by {
            assert(prev[i] == lines[i]);
        }
        lemma_split_join(prev);
        let x = join_lines(prev) + seq!['\n'];
        assert(x.drop_last() =~= join_lines(prev));
        assert(split_lines(x) == prev.push(seq![]));
        lemma_split_extend(x, lines.last());
        assert(seq![] + lines.last() =~= lines.last());
        assert(prev.push(seq![]).update(prev.len() as int, lines.last()) =~= lines);
    }
}

/// A data line holds no character that its cells and frame lack.
proof fn lemma_cell_line_free(a: Seq<char>, b: Seq<char>, c: Seq<char>, nw: nat, fw: nat, dw: nat, x: char)
    requires
        nw > 0,
        fw > 0,
        dw > 0,
        x != ' ',
        x != ellipsis(),
        x != vbar(),
        free_of(a, x),
        free_of(b, x),
        free_of(c, x),
    ensures
        free_of(cell_line(a, b, c, nw, fw, dw), x),
{
    lemma_fit_free(a, nw, x);
    lemma_fit_free(b, fw, x);
    lemma_fit_free(c, dw, x);
    let l = cell_line(a, b, c, nw, fw, dw);
    let fa = fit_spec(a, nw);
    let fb = fit_spec(b, fw);
    let tc = fit_tail_spec(c, dw);
    assert forall|i: int| 0 <= i < l.len() implies l[i] != x by {
        let o1 = 2 + fa.len();
        let o2 = o1 + 3 + fb.len();
        let o3 = o2 + 3 + tc.len();
        if 2 <= i < o1 {
            assert(l[i] == fa[i - 2]);
        } else if o1 + 3 <= i < o2 {
            assert(l[i] == fb[i - o1 - 3]);
        } else if o2 + 3 <= i < o3 {
            assert(l[i] == tc[i - o2 - 3]);
        }
    }
}

/// A border line holds no character other than its corners, joints and
/// `─`.
proof fn lemma_border_free(l: char, m: char, r: char, nw: nat, fw: nat, dw: nat, x: char)
    requires
        x != l,
        x != m,
        x != r,
        x != '\u{2500}',
    ensures
        free_of(border(l, m, r, nw, fw, dw), x),
{
    let b = border(l, m, r, nw, fw, dw);
    assert forall|i: int| 0 <= i < b.len() implies b[i] != x by {
        let x1 = seq![l] + bar(nw);
        let x2 = x1 + seq![m];
        let x3 = x2 + bar(fw);
        let x4 = x3 + seq![m];
        let x5 = x4 + bar(dw);
        if i < 1 {
        } else if i < x1.len() {
            assert(b[i] == bar(nw)[i - 1]);
        } else if i < x2.len() {
        } else if i < x3.len() {
            assert(b[i] == bar(fw)[i - x2.len()]);
        } else if i < x4.len() {
        } else if i < x5.len() {
            assert(b[i] == bar(dw)[i - x4.len()]);
        }
    }
}

proof fn lemma_body_lines_free(rows: Seq<RowView>, nw: nat, fw: nat, dw: nat)
    requires
        nw > 0,
        fw > 0,
        dw > 0,
        forall|k: int|
            0 <= k < rows.len() ==> free_of((#[trigger] rows[k]).rule, '\n') && free_of(
                rows[k].file,
                '\n',
            ) && free_of(rows[k].dest, '\n'),
    ensures
        forall|i: int|
            0 <= i < body_lines(rows, nw, fw, dw).len() ==> free_of(
                #[trigger] body_lines(rows, nw, fw, dw)[i],
                '\n',
            ),
    decreases rows.len(),
{
    if rows.len() > 0 {
        let r = rows.last();
        assert(rows.last() == rows[rows.len() - 1]);
        lemma_body_lines_free(rows.drop_last(), nw, fw, dw);
        lemma_cell_line_free(r.rule, r.file, r.dest, nw, fw, dw, '\n');
        lemma_border_free('\u{251C}', '\u{253C}', '\u{2524}', nw, fw, dw, '\n');
        let prev = body_lines(rows.drop_last(), nw, fw, dw);
        let with_sep = if rows.len() >= 2 && rows[rows.len() - 2].rule != r.rule {
            prev.push(sep_line(nw, fw, dw))
        } else {
            prev
        };
        let body = body_lines(rows, nw, fw, dw);
        assert(body == with_sep.push(cell_line(r.rule, r.file, r.dest, nw, fw, dw)));
        assert forall|i: int| 0 <= i < body.len() implies free_of(#[trigger] body[i], '\n') by {
            if i < prev.len() {
                assert(body[i] == prev[i]);
            }
        }
    }
}

/// The rendered table splits back into its lines: cutting the text of
/// `render_table` at every newline gives exactly `table_lines`, when no
/// cell holds a newline.
pub proof fn lemma_table_text_lines(rows: Seq<RowView>)
    requires
        forall|k: int|
            0 <= k < rows.len() ==> free_of((#[trigger] rows[k]).rule, '\n') && free_of(
                rows[k].file,
                '\n',
            ) && free_of(rows[k].dest, '\n'),
    ensures
        split_lines(join_lines(table_lines(rows))) == table_lines(rows),
{
    let nw = col_width(rows, 0, 4);
    let fw = col_width(rows, 1, 4);
    let dw = col_width(rows, 2, 11);
    lemma_col_width_at_least(rows, 0, 4);
    lemma_col_width_at_least(rows, 1, 4);
    lemma_col_width_at_least(rows, 2, 11);
    reveal_strlit("RULE");
    reveal_strlit("FILE");
    reveal_strlit("DESTINATION");
    lemma_cell_line_free("RULE"@, "FILE"@, "DESTINATION"@, nw, fw, dw, '\n');
    lemma_border_free('\u{250C}', '\u{252C}', '\u{2510}', nw, fw, dw, '\n');
    lemma_border_free('\u{251C}', '\u{253C}', '\u{2524}', nw, fw, dw, '\n');
    lemma_border_free('\u{2514}', '\u{2534}', '\u{2518}', nw, fw, dw, '\n');
    lemma_body_lines_free(rows, nw, fw, dw);
    let t = table_lines(rows);
    let b = body_lines(rows, nw, fw, dw);
    assert forall|i: int| 0 <= i < t.len() implies free_of(#[trigger] t[i], '\n') by {
        if 3 <= i < 3 + b.len() {
            assert(t[i] == b[i - 3]);
        }
    }
    lemma_split_join(t);
}

} // verus!
