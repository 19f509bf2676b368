use vstd::prelude::*;
use crate::text::{
    before_first, before_first_chars, chars_of, has_prefix, lines_of, parse_usize,
    parse_usize_chars, split_white_space, starts_with, string_from_chars, text_lines,
    trim_leading, trim_leading_chars, views_of, ws_tokens,
};

verus! {

/// The kind of one row of a side-by-side diff.
#[derive(Debug, Clone, Copy, PartialEq, Eq, Structural)]
pub enum DiffLineType {
    Context,
    Addition,
    Deletion,
    Header,
    FileHeader,
    Hunk,
}

/// One row of one side of a side-by-side diff.
#[derive(Debug)]
pub struct DiffLine {
    pub line_type: DiffLineType,
    pub old_line_num: Option<usize>,
    pub new_line_num: Option<usize>,
    pub content: String,
}

/// The value a `DiffLine` holds; line numbers as integers.
pub struct DiffLineView {
    pub line_type: DiffLineType,
    pub old_line_num: Option<int>,
    pub new_line_num: Option<int>,
    pub content: Seq<char>,
}

pub open spec fn num_view(n: Option<usize>) -> Option<int> {
    match n {
        Some(v) => Some(v as int),
        None => None,
    }
}

impl View for DiffLine {
    type V = DiffLineView;

    open spec fn view(&self) -> DiffLineView {
        DiffLineView {
            line_type: self.line_type,
            old_line_num: num_view(self.old_line_num),
            new_line_num: num_view(self.new_line_num),
            content: self.content@,
        }
    }
}

impl Clone for DiffLine {
    fn clone(&self) -> (r: Self)
        ensures
            r == *self,
    {
        DiffLine {
            line_type: self.line_type,
            old_line_num: self.old_line_num,
            new_line_num: self.new_line_num,
            content: self.content.clone(),
        }
    }
}

/// The two columns of a side-by-side diff.
#[derive(Debug)]
pub struct SideBySideDiff {
    pub left_lines: Vec<DiffLine>,
    pub right_lines: Vec<DiffLine>,
}

/// The state of the parser after some lines: both columns, and the next old and new line
/// numbers.
pub struct DiffState {
    pub left: Seq<DiffLineView>,
    pub right: Seq<DiffLineView>,
    pub old: int,
    pub new: int,
}

pub open spec fn lines_view(v: Seq<DiffLine>) -> Seq<DiffLineView> {
    v.map_values(|l: DiffLine| l@)
}

/// A row that shows `line` as it is, with no line numbers.
pub open spec fn plain_row(t: DiffLineType, line: Seq<char>) -> DiffLineView {
    DiffLineView { line_type: t, old_line_num: None, new_line_num: None, content: line }
}

pub open spec fn plus3() -> Seq<char> {
    seq!['+', '+', '+']
}

pub open spec fn minus3() -> Seq<char> {
    seq!['-', '-', '-']
}

pub open spec fn at2() -> Seq<char> {
    seq!['@', '@']
}

pub open spec fn diff_git() -> Seq<char> {
    seq!['d', 'i', 'f', 'f', ' ', '-', '-', 'g', 'i', 't']
}

pub open spec fn index_sp() -> Seq<char> {
    seq!['i', 'n', 'd', 'e', 'x', ' ']
}

/// The old and new start lines named by a hunk header `@@ -a,b +c,d @@`, each one less
/// than written (and at least zero); `None` when the header is malformed.
pub open spec fn hunk_starts(header: Seq<char>) -> Option<(usize, usize)> {
    let parts = ws_tokens(header);
    if parts.len() < 3 {
        None
    } else {
        let old_part = before_first(trim_leading(parts[1], '-'), ',');
        let new_part = before_first(trim_leading(parts[2], '+'), ',');
        match (parse_usize(old_part), parse_usize(new_part)) {
            (Some(a), Some(b)) => Some(
                (if a > 0 { (a - 1) as usize } else { 0 }, if b > 0 { (b - 1) as usize } else { 0 }),
            ),
            _ => None,
        }
    }
}

/// The parser state after reading one more line.
pub open spec fn diff_step(st: DiffState, line: Seq<char>) -> DiffState {
    if has_prefix(line, plus3()) || has_prefix(line, minus3()) {
        DiffState {
            left: st.left.push(plain_row(DiffLineType::FileHeader, line)),
            right: st.right.push(plain_row(DiffLineType::FileHeader, line)),
            ..st
        }
    } else if has_prefix(line, at2()) {
        let (o, n) = match hunk_starts(line) {
            Some((a, b)) => (a as int, b as int),
            None => (st.old, st.new),
        };
        DiffState {
            left: st.left.push(plain_row(DiffLineType::Hunk, line)),
            right: st.right.push(plain_row(DiffLineType::Hunk, line)),
            old: o,
            new: n,
        }
    } else if has_prefix(line, diff_git()) || has_prefix(line, index_sp()) {
        DiffState {
            left: st.left.push(plain_row(DiffLineType::Header, line)),
            right: st.right.push(plain_row(DiffLineType::Header, line)),
            ..st
        }
    } else if line.len() > 0 && line[0] == '+' {
        DiffState {
            left: st.left.push(plain_row(DiffLineType::Addition, Seq::empty())),
            right: st.right.push(
                DiffLineView {
                    line_type: DiffLineType::Addition,
                    old_line_num: None,
                    new_line_num: Some(st.new),
                    content: line.drop_first(),
                },
            ),
            new: st.new + 1,
            ..st
        }
    } else if line.len() > 0 && line[0] == '-' {
        DiffState {
            left: st.left.push(
                DiffLineView {
                    line_type: DiffLineType::Deletion,
                    old_line_num: Some(st.old),
                    new_line_num: None,
                    content: line.drop_first(),
                },
            ),
            right: st.right.push(plain_row(DiffLineType::Deletion, Seq::empty())),
            old: st.old + 1,
            ..st
        }
    } else if line.len() == 0 || line[0] == ' ' {
        let content = if line.len() > 1 { line.drop_first() } else { line };
        let row = DiffLineView {
            line_type: DiffLineType::Context,
            old_line_num: Some(st.old),
            new_line_num: Some(st.new),
            content,
        };
        DiffState {
            left: st.left.push(row),
            right: st.right.push(row),
            old: st.old + 1,
            new: st.new + 1,
        }
    } else {
        DiffState {
            left: st.left.push(plain_row(DiffLineType::Header, line)),
            right: st.right.push(plain_row(DiffLineType::Header, line)),
            ..st
        }
    }
}

/// The parser state after reading `lines` from the start.
pub open spec fn diff_fold(lines: Seq<Seq<char>>) -> DiffState
    decreases lines.len(),
{
    if lines.len() == 0 {
        DiffState { left: seq![], right: seq![], old: 0, new: 0 }
    } else {
        diff_step(diff_fold(lines.drop_last()), lines.last())
    }
}

/// The line counters stay within `usize` all the way through `lines`.
pub open spec fn counters_fit(lines: Seq<Seq<char>>) -> bool
    decreases lines.len(),
{
    lines.len() == 0 || (counters_fit(lines.drop_last()) && diff_fold(lines).old <= usize::MAX
        && diff_fold(lines).new <= usize::MAX)
}

pub open spec fn side_by_side_of(text: Seq<char>) -> DiffState {
    diff_fold(text_lines(text))
}

proof fn lemma_counters_fit_prefix(lines: Seq<Seq<char>>, i: int)
    requires
        counters_fit(lines),
        0 <= i <= lines.len(),
    ensures
        counters_fit(lines.take(i)),
    decreases lines.len(),
{
    if i < lines.len() {
        assert(lines.drop_last().take(i) == lines.take(i));
        lemma_counters_fit_prefix(lines.drop_last(), i);
    } else {
        assert(lines.take(i) == lines);
    }
}

proof fn lemma_fold_nonneg(lines: Seq<Seq<char>>)
    ensures
        diff_fold(lines).old >= 0,
        diff_fold(lines).new >= 0,
    decreases lines.len(),
{
    if lines.len() > 0 {
        lemma_fold_nonneg(lines.drop_last());
    }
}

/// The old and new start lines of a hunk header such as `@@ -3,4 +5,6 @@`, made zero-based.
pub fn parse_hunk_header(header: &str) -> (r: Option<(usize, usize)>)
    ensures
        r == hunk_starts(header@),
{
    let chars = chars_of(header);
    parse_hunk_header_chars(&chars)
}

fn parse_hunk_header_chars(header: &[char]) -> (r: Option<(usize, usize)>)
    ensures
        r == hunk_starts(header@),
{
    let parts = split_white_space(header);
    if parts.len() < 3 {
        return None;
    }
    proof {
        assert(views_of(parts@)[1] == parts@[1]@);
        assert(views_of(parts@)[2] == parts@[2]@);
    }
    let old_trim = trim_leading_chars(&parts[1], '-');
    let new_trim = trim_leading_chars(&parts[2], '+');
    let old_field = before_first_chars(&old_trim, ',');
    let new_field = before_first_chars(&new_trim, ',');
    let a = match parse_usize_chars(&old_field) {
        Some(a) => a,
        None => return None,
    };
    let b = match parse_usize_chars(&new_field) {
        Some(b) => b,
        None => return None,
    };
    let a1 = if a > 0 { a - 1 } else { 0 };
    let b1 = if b > 0 { b - 1 } else { 0 };
    Some((a1, b1))
}

fn plain_line(t: DiffLineType, line: &[char]) -> (r: DiffLine)
    ensures
        r@ == plain_row(t, line@),
{
    DiffLine { line_type: t, old_line_num: None, new_line_num: None, content: string_from_chars(line) }
}

fn chars_after_first(line: &[char]) -> (r: Vec<char>)
    requires
        line@.len() > 0,
    ensures
        r@ == line@.drop_first(),
{
    let mut r: Vec<char> = Vec::new();
    let mut j: usize = 1;
    while j < line.len()
        invariant
            1 <= j <= line@.len(),
            r@ == line@.subrange(1, j as int),
        decreases line@.len() - j,
    {
        r.push(line[j]);
        proof {
            assert(line@.subrange(1, j + 1) == line@.subrange(1, j as int).push(line@[j as int]));
        }
        j += 1;
    }
    proof {
        assert(r@ =~= line@.drop_first());
    }
    r
}

impl SideBySideDiff {
    /// Splits a unified diff into an old (left) and new (right) column, row by row: file
    /// headers, hunk headers and other headers appear on both sides; an added line shows on
    /// the right with its new line number and as an empty row on the left; a removed line
    /// shows on the left with its old line number and as an empty row on the right; a
    /// context line shows on both sides with both numbers. Hunk headers reset the numbers.
    pub fn from_unified_diff(unified_diff: &str) -> (d: Self)
        requires
            counters_fit(text_lines(unified_diff@)),
        ensures
            lines_view(d.left_lines@) == side_by_side_of(unified_diff@).left,
            lines_view(d.right_lines@) == side_by_side_of(unified_diff@).right,
    {
        let text = chars_of(unified_diff);
        let lines = lines_of(&text);
        let ghost ls = text_lines(unified_diff@);
        let plus3v: Vec<char> = vec!['+', '+', '+'];
        let minus3v: Vec<char> = vec!['-', '-', '-'];
        let at2v: Vec<char> = vec!['@', '@'];
        let diff_gitv: Vec<char> = vec!['d', 'i', 'f', 'f', ' ', '-', '-', 'g', 'i', 't'];
        let index_v: Vec<char> = vec!['i', 'n', 'd', 'e', 'x', ' '];
        proof {
            assert(plus3v@ == plus3());
            assert(minus3v@ == minus3());
            assert(at2v@ == at2());
            assert(diff_gitv@ == diff_git());
            assert(index_v@ == index_sp());
        }
        let empty: Vec<char> = Vec::new();
        let mut left_lines: Vec<DiffLine> = Vec::new();
        let mut right_lines: Vec<DiffLine> = Vec::new();
        let mut old_line_num: usize = 0;
        let mut new_line_num: usize = 0;
        let mut i: usize = 0;
        while i < lines.len()
            invariant
                views_of(lines@) == ls,
                counters_fit(ls),
                plus3v@ == plus3(),
                minus3v@ == minus3(),
                at2v@ == at2(),
                diff_gitv@ == diff_git(),
                index_v@ == index_sp(),
                empty@ == Seq::<char>::empty(),
                0 <= i <= lines@.len(),
                lines_view(left_lines@) == diff_fold(ls.take(i as int)).left,
                lines_view(right_lines@) == diff_fold(ls.take(i as int)).right,
                old_line_num == diff_fold(ls.take(i as int)).old,
                new_line_num == diff_fold(ls.take(i as int)).new,
            decreases lines@.len() - i,
        {
            let line = &lines[i];
            let ghost st = diff_fold(ls.take(i as int));
            let ghost next = diff_fold(ls.take(i + 1));
            proof {
                assert(views_of(lines@)[i as int] == line@);
                assert(ls.take(i + 1).drop_last() == ls.take(i as int));
                assert(ls.take(i + 1).last() == line@);
                assert(next == diff_step(st, line@));
                lemma_counters_fit_prefix(ls, i + 1);
            }
            let ghost old_left = left_lines@;
            let ghost old_right = right_lines@;
            if starts_with(line, &plus3v) || starts_with(line, &minus3v) {
                left_lines.push(plain_line(DiffLineType::FileHeader, line));
                right_lines.push(plain_line(DiffLineType::FileHeader, line));
            } else if starts_with(line, &at2v) {
                match parse_hunk_header_chars(line) {
                    Some((o, n)) => {
                        old_line_num = o;
                        new_line_num = n;
                    },
                    None => {},
                }
                left_lines.push(plain_line(DiffLineType::Hunk, line));
                right_lines.push(plain_line(DiffLineType::Hunk, line));
            } else if starts_with(line, &diff_gitv) || starts_with(line, &index_v) {
                left_lines.push(plain_line(DiffLineType::Header, line));
                right_lines.push(plain_line(DiffLineType::Header, line));
            } else if line.len() > 0 && line[0] == '+' {
                let rest = chars_after_first(line);
                left_lines.push(plain_line(DiffLineType::Addition, &empty));
                right_lines.push(
                    DiffLine {
                        line_type: DiffLineType::Addition,
                        old_line_num: None,
                        new_line_num: Some(new_line_num),
                        content: string_from_chars(&rest),
                    },
                );
                proof {
                    assert(counters_fit(ls.take(i + 1)));
                }
                new_line_num = new_line_num + 1;
            } else if line.len() > 0 && line[0] == '-' {
                let rest = chars_after_first(line);
                left_lines.push(
                    DiffLine {
                        line_type: DiffLineType::Deletion,
                        old_line_num: Some(old_line_num),
                        new_line_num: None,
                        content: string_from_chars(&rest),
                    },
                );
                right_lines.push(plain_line(DiffLineType::Deletion, &empty));
                old_line_num = old_line_num + 1;
            } else if line.len() == 0 || line[0] == ' ' {
                let content = if line.len() > 1 {
                    chars_after_first(line)
                } else {
                    let mut same: Vec<char> = Vec::new();
                    if line.len() == 1 {
                        same.push(line[0]);
                    }
                    proof {
                        assert(same@ =~= line@);
                    }
                    same
                };
                left_lines.push(
                    DiffLine {
                        line_type: DiffLineType::Context,
                        old_line_num: Some(old_line_num),
                        new_line_num: Some(new_line_num),
                        content: string_from_chars(&content),
                    },
                );
                right_lines.push(
                    DiffLine {
                        line_type: DiffLineType::Context,
                        old_line_num: Some(old_line_num),
                        new_line_num: Some(new_line_num),
                        content: string_from_chars(&content),
                    },
                );
                old_line_num = old_line_num + 1;
                new_line_num = new_line_num + 1;
            } else {
                left_lines.push(plain_line(DiffLineType::Header, line));
                right_lines.push(plain_line(DiffLineType::Header, line));
            }
            proof {
                assert(left_lines@.last()@ == next.left.last());
                assert(right_lines@.last()@ == next.right.last());
                assert(next.left == st.left.push(next.left.last()));
                assert(next.right == st.right.push(next.right.last()));
                assert(lines_view(left_lines@) =~= lines_view(old_left).push(left_lines@.last()@));
                assert(lines_view(right_lines@) =~= lines_view(old_right).push(right_lines@.last()@));
            }
            i += 1;
        }
        proof {
            assert(ls.take(lines@.len() as int) == ls);
        }
        SideBySideDiff { left_lines, right_lines }
    }

    pub fn max_lines(&self) -> (r: usize)
        ensures
            r == if self.left_lines@.len() >= self.right_lines@.len() {
                self.left_lines@.len()
            } else {
                self.right_lines@.len()
            },
    {
        if self.left_lines.len() >= self.right_lines.len() {
            self.left_lines.len()
        } else {
            self.right_lines.len()
        }
    }
}

} // verus!
