//! How text is cut into lines: a line ends after a line break (LF, VT, FF, CR, NEL, LS or
//! PS, with CR LF counted as one break) and keeps its break.

use vstd::prelude::*;

verus! {

/// The characters that end a line.
pub open spec fn is_line_break(c: char) -> bool {
    c == '\n' || c == '\u{0B}' || c == '\u{0C}' || c == '\r' || c == '\u{85}' || c == '\u{2028}'
        || c == '\u{2029}'
}

/// A new line starts at position `i` (`0 < i <= len`): the character before it breaks the
/// line, and it is not the CR of a CR LF pair.
pub open spec fn starts_line(s: Seq<char>, i: int) -> bool {
    0 < i <= s.len() && is_line_break(s[i - 1]) && !(s[i - 1] == '\r' && i < s.len() && s[i] == '\n')
}

/// The positions up to `n` at which lines start, in increasing order (always `0` first).
pub open spec fn starts_upto(s: Seq<char>, n: nat) -> Seq<int>
    decreases n,
{
    if n == 0 {
        seq![0int]
    } else {
        let p = starts_upto(s, (n - 1) as nat);
        if starts_line(s, n as int) { p.push(n as int) } else { p }
    }
}

/// The positions at which the lines of `s` start.
pub open spec fn line_starts(s: Seq<char>) -> Seq<int> {
    starts_upto(s, s.len())
}

/// Number of lines of `s` (one more than the number of line breaks).
pub open spec fn num_lines(s: Seq<char>) -> nat {
    line_starts(s).len()
}

/// Where line `k` starts; for `k == num_lines(s)`, the end of the text.
pub open spec fn line_start(s: Seq<char>, k: int) -> int {
    if 0 <= k < num_lines(s) { line_starts(s)[k] } else { s.len() as int }
}

/// Where line `k` ends (just after its line break, if it has one).
pub open spec fn line_end(s: Seq<char>, k: int) -> int {
    line_start(s, k + 1)
}

/// Line `k` with its line break.
pub open spec fn line_text(s: Seq<char>, k: int) -> Seq<char> {
    s.subrange(line_start(s, k), line_end(s, k))
}

/// Length of line `k` without a final `'\n'`.
pub open spec fn line_length(s: Seq<char>, k: int) -> nat {
    let t = line_text(s, k);
    if t.len() > 0 && t.last() == '\n' { (t.len() - 1) as nat } else { t.len() }
}

/// The line holding position `i` (`0 <= i <= len`).
pub open spec fn line_of(s: Seq<char>, i: int) -> int {
    starts_upto(s, i as nat).len() - 1
}

/// `(line, column)` names a place in `s`: an existing line, and a column up to its length.
pub open spec fn valid_position(s: Seq<char>, line: int, column: int) -> bool {
    0 <= line < num_lines(s) && 0 <= column <= line_length(s, line)
}

/// The character index of `(line, column)`.
pub open spec fn index_of(s: Seq<char>, line: int, column: int) -> int {
    line_start(s, line) + column
}

pub proof fn lemma_starts_upto_shape(s: Seq<char>, n: nat)
    ensures
        starts_upto(s, n).len() >= 1,
        starts_upto(s, n)[0] == 0,
        forall|i: int|
            0 <= i < starts_upto(s, n).len() ==> 0 <= #[trigger] starts_upto(s, n)[i] <= n,
        forall|i: int, j: int|
            0 <= i < j < starts_upto(s, n).len() ==> #[trigger] starts_upto(s, n)[i]
                < #[trigger] starts_upto(s, n)[j],
        forall|i: int|
            0 < i < starts_upto(s, n).len() ==> starts_line(s, #[trigger] starts_upto(s, n)[i]),
    decreases n,
{
    if n > 0 {
        lemma_starts_upto_shape(s, (n - 1) as nat);
    }
}

/// The starts up to `m` are the first starts up to any later `n`.
pub proof fn lemma_starts_upto_prefix(s: Seq<char>, m: nat, n: nat)
    requires
        m <= n,
    ensures
        starts_upto(s, m).len() <= starts_upto(s, n).len(),
        starts_upto(s, n).take(starts_upto(s, m).len() as int) == starts_upto(s, m),
        forall|i: int|
            starts_upto(s, m).len() <= i < starts_upto(s, n).len() ==> #[trigger] starts_upto(s, n)[i] > m,
    decreases n - m,
{
    if m < n {
        lemma_starts_upto_prefix(s, m, (n - 1) as nat);
        let p = starts_upto(s, (n - 1) as nat);
        lemma_starts_upto_shape(s, (n - 1) as nat);
        if starts_line(s, n as int) {
            assert(starts_upto(s, n) == p.push(n as int));
            assert(starts_upto(s, n).take(starts_upto(s, m).len() as int) == p.take(
                starts_upto(s, m).len() as int,
            ));
        }
    } else {
        assert(starts_upto(s, n).take(starts_upto(s, n).len() as int) == starts_upto(s, n));
    }
}

/// Line starts are increasing and lie within the text; line 0 starts at 0.
pub proof fn lemma_line_starts(s: Seq<char>)
    ensures
        num_lines(s) >= 1,
        line_start(s, 0) == 0,
        forall|k: int| 0 <= k <= num_lines(s) ==> 0 <= #[trigger] line_start(s, k) <= s.len(),
        forall|k: int| 0 <= k < num_lines(s) ==> #[trigger] line_start(s, k) < line_end(s, k) || (
        k == num_lines(s) - 1 && line_start(s, k) == line_end(s, k)),
        forall|k: int| 0 <= k < num_lines(s) ==> line_start(s, k) <= #[trigger] line_end(s, k),
{
    lemma_starts_upto_shape(s, s.len());
    assert forall|k: int| 0 <= k < num_lines(s) implies line_start(s, k) <= #[trigger] line_end(s, k) by {
        if k + 1 < num_lines(s) {
            assert(line_starts(s)[k] < line_starts(s)[k + 1]);
        }
    }
}

/// The line of position `i` starts at or before `i`, and the next line starts after it.
pub proof fn lemma_line_of(s: Seq<char>, i: int)
    requires
        0 <= i <= s.len(),
    ensures
        0 <= line_of(s, i) < num_lines(s),
        line_start(s, line_of(s, i)) <= i,
        i < line_end(s, line_of(s, i)) || (i == s.len() && line_of(s, i) == num_lines(s) - 1),
{
    lemma_starts_upto_shape(s, i as nat);
    lemma_starts_upto_shape(s, s.len());
    lemma_starts_upto_prefix(s, i as nat, s.len());
    let p = starts_upto(s, i as nat);
    let k = p.len() - 1;
    assert(line_starts(s)[k] == p[k]);
    if k + 1 < num_lines(s) {
        assert(line_starts(s)[k + 1] > i);
    } else {
        assert(i == s.len() || line_end(s, k) == s.len());
    }
}

/// The line that starts at the start of line `k` is line `k`.
pub proof fn lemma_line_of_start(s: Seq<char>, k: int)
    requires
        0 <= k < num_lines(s),
    ensures
        line_of(s, line_start(s, k)) == k,
{
    lemma_line_starts(s);
    lemma_starts_upto_shape(s, s.len());
    let p = line_start(s, k);
    lemma_line_of(s, p);
    let j = line_of(s, p);
    if j < k {
        if j + 1 < k {
            assert(line_starts(s)[j + 1] < line_starts(s)[k]);
        }
        assert(line_end(s, j) <= p);
    } else if j > k {
        assert(line_starts(s)[k] < line_starts(s)[j]);
    }
}

/// There are at most `n + 1` line starts up to `n`.
proof fn lemma_starts_upto_len(s: Seq<char>, n: nat)
    ensures
        starts_upto(s, n).len() <= n + 1,
    decreases n,
{
    if n > 0 {
        lemma_starts_upto_len(s, (n - 1) as nat);
    }
}

/// A text has at most one line more than it has characters.
pub proof fn lemma_num_lines_bound(s: Seq<char>)
    ensures
        num_lines(s) <= s.len() + 1,
{
    lemma_starts_upto_len(s, s.len());
}

/// A position between the start and the end of line `k` lies on line `k`.
pub proof fn lemma_line_of_within(s: Seq<char>, k: int, i: int)
    requires
        0 <= k < num_lines(s),
        line_start(s, k) <= i < line_end(s, k),
    ensures
        line_of(s, i) == k,
{
    lemma_line_starts(s);
    lemma_starts_upto_shape(s, s.len());
    lemma_line_of(s, i);
    let j = line_of(s, i);
    if j < k {
        if j + 1 < k {
            assert(line_starts(s)[j + 1] < line_starts(s)[k]);
        }
        assert(line_end(s, j) <= line_start(s, k));
    } else if j > k {
        if j < num_lines(s) {
            if k + 1 < j {
                assert(line_starts(s)[k + 1] < line_starts(s)[j]);
            }
        }
        assert(line_end(s, k) <= line_start(s, j));
    }
}

/// In a text whose line breaks are line feeds, the index of a valid `(line, column)` lies
/// on that line.
pub proof fn lemma_line_of_index(s: Seq<char>, line: int, column: int)
    requires
        lf_only(s),
        valid_position(s, line, column),
    ensures
        line_of(s, index_of(s, line, column)) == line,
{
    lemma_line_starts(s);
    lemma_starts_upto_shape(s, s.len());
    let i = index_of(s, line, column);
    let t = line_text(s, line);
    assert(t.len() == line_end(s, line) - line_start(s, line));
    if i < line_end(s, line) {
        lemma_line_of_within(s, line, i);
    } else {
        if line + 1 < num_lines(s) {
            let e = line_starts(s)[line + 1];
            assert(starts_line(s, e));
            assert(is_line_break(s[e - 1]));
            assert(t.last() == s[e - 1]);
            assert(false);
        }
        assert(i == s.len());
        lemma_line_of(s, i);
        assert(line_of(s, i) == num_lines(s) - 1);
    }
}

/// In a text whose line breaks are line feeds, a line feed put at `i` on line `k` (before
/// its end, or at the end of the last line) ends line `k` there: the next line starts right
/// after it.
pub proof fn lemma_insert_newline(s: Seq<char>, k: int, i: int)
    requires
        lf_only(s),
        0 <= k < num_lines(s),
        line_start(s, k) <= i <= line_end(s, k),
        i < line_end(s, k) || k == num_lines(s) - 1,
    ensures
        ({
            let s2 = s.insert(i, '\n');
            &&& k + 1 < num_lines(s2)
            &&& line_start(s2, k) == line_start(s, k)
            &&& line_start(s2, k + 1) == i + 1
        }),
{
    lemma_line_starts(s);
    lemma_starts_upto_shape(s, s.len());
    let p = line_start(s, k);
    let s2 = s.insert(i, '\n');
    assert(0 <= i <= s.len());
    assert forall|j: int| 0 <= j < i implies s2[j] == s[j] by {}
    assert forall|j: int| 0 < j <= i implies starts_line(s2, j) == starts_line(s, j) by {
        if j == i {
            assert(s2[i] == '\n');
            if is_line_break(s[i - 1]) {
                assert(s[i - 1] == '\n');
            }
        } else {
            assert(s2[j] == s[j]);
        }
    }
    lemma_starts_upto_same_prefix(s, s2, i as nat, i);
    assert(starts_line(s2, i + 1)) by {
        assert(s2[i] == '\n');
    }
    assert(starts_upto(s2, (i + 1) as nat) == starts_upto(s2, i as nat).push(i + 1));
    lemma_starts_up_to_line(s, k);
    lemma_starts_upto_prefix(s, p as nat, i as nat);
    lemma_starts_upto_prefix(s, i as nat, s.len());
    lemma_starts_upto_shape(s, i as nat);
    let si = starts_upto(s, i as nat);
    assert(si.len() == k + 1) by {
        if si.len() > k + 1 {
            assert(line_starts(s)[k + 1] == si[k + 1]);
            assert(si[k + 1] <= i);
        }
    }
    assert(si[k] == p) by {
        assert(si[k] == starts_upto(s, p as nat)[k]);
    }
    lemma_starts_upto_prefix(s2, (i + 1) as nat, s2.len());
    let s2i = starts_upto(s2, (i + 1) as nat);
    assert(s2i.len() == k + 2);
    assert(line_starts(s2)[k] == s2i[k]);
    assert(line_starts(s2)[k + 1] == s2i[k + 1]);
}

/// In a text whose line breaks are line feeds, a line other than the last is its body, which
/// holds no line break, and a line feed.
pub proof fn lemma_lf_line_body(s: Seq<char>, k: int)
    requires
        lf_only(s),
        0 <= k < num_lines(s) - 1,
    ensures
        line_text(s, k).len() >= 1,
        line_text(s, k).last() == '\n',
        no_breaks(line_text(s, k).drop_last()),
{
    lemma_line_starts(s);
    lemma_starts_upto_shape(s, s.len());
    let p = line_start(s, k);
    let e = line_end(s, k);
    let t = line_text(s, k);
    assert(t.len() == e - p);
    assert(line_starts(s)[k + 1] == e);
    assert(starts_line(s, e));
    assert(t.last() == s[e - 1]);
    assert forall|j: int| 0 <= j < t.drop_last().len() implies !is_line_break(#[trigger] t.drop_last()[j]) by {
        let a = p + j;
        assert(t.drop_last()[j] == s[a]);
        if is_line_break(s[a]) {
            assert(s[a] == '\n');
            assert(starts_line(s, a + 1));
            lemma_line_of_within(s, k, a);
            lemma_line_of_within(s, k, a + 1);
            assert(starts_upto(s, (a + 1) as nat) == starts_upto(s, a as nat).push(a + 1));
        }
    }
}

/// The column of a position never exceeds the length of its line: a text that ends in
/// `'\n'` has an empty last line.
pub proof fn lemma_column_within_line(s: Seq<char>, i: int)
    requires
        0 <= i <= s.len(),
    ensures
        i - line_start(s, line_of(s, i)) <= line_length(s, line_of(s, i)),
{
    lemma_line_of(s, i);
    lemma_line_starts(s);
    let k = line_of(s, i);
    let t = line_text(s, k);
    if i < line_end(s, k) {
        assert(t.len() == line_end(s, k) - line_start(s, k));
    } else if line_start(s, k) < s.len() {
        if s[s.len() - 1] == '\n' {
            assert(starts_line(s, s.len() as int));
            assert(line_starts(s).last() == s.len());
            assert(false);
        }
        assert(t.last() == s[s.len() - 1]);
    }
}

/// A valid `(line, column)` names a position inside the text.
pub proof fn lemma_index_of_valid(s: Seq<char>, line: int, column: int)
    requires
        valid_position(s, line, column),
    ensures
        line_start(s, line) <= index_of(s, line, column) <= line_end(s, line) <= s.len(),
{
    lemma_line_starts(s);
    assert(line_text(s, line).len() == line_end(s, line) - line_start(s, line));
}


/// Line `k` starts at `p = line_start(s, k)`: the starts up to `p` are those of the first
/// `k + 1` lines.
proof fn lemma_starts_up_to_line(s: Seq<char>, k: int)
    requires
        0 <= k < num_lines(s),
    ensures
        starts_upto(s, line_start(s, k) as nat).len() == k + 1,
        starts_upto(s, line_start(s, k) as nat).last() == line_start(s, k),
{
    lemma_line_starts(s);
    let p = line_start(s, k);
    lemma_starts_upto_shape(s, p as nat);
    lemma_starts_upto_shape(s, s.len());
    lemma_starts_upto_prefix(s, p as nat, s.len());
    let sp = starts_upto(s, p as nat);
    let all = line_starts(s);
    assert(all[k] == p);
    if sp.len() <= k {
        assert(all[k] > p);
    }
    if sp.len() > k + 1 {
        assert(sp[k + 1] == all[k + 1]);
        assert(all[k] < all[k + 1]);
    }
}

/// Before position `i <= p`, two texts that agree up to `p` (and on the character at `p`
/// wherever `i == p` could hinge on it) have the same line starts.
proof fn lemma_starts_upto_same_prefix(s: Seq<char>, s2: Seq<char>, i: nat, p: int)
    requires
        i <= p,
        p <= s.len(),
        p <= s2.len(),
        forall|j: int| 0 <= j < p ==> s2[j] == s[j],
        forall|j: int| 0 < j <= p ==> starts_line(s2, j) == starts_line(s, j),
    ensures
        starts_upto(s2, i) == starts_upto(s, i),
    decreases i,
{
    if i > 0 {
        lemma_starts_upto_same_prefix(s, s2, (i - 1) as nat, p);
    }
}

/// Text `u` with no line break, put at the start of line `k`, keeps line `k` starting where
/// it did and makes it at least `u.len()` longer at its start.
pub proof fn lemma_insert_at_line_start(s: Seq<char>, k: int, u: Seq<char>)
    requires
        0 <= k < num_lines(s),
        forall|i: int| 0 <= i < u.len() ==> !is_line_break(#[trigger] u[i]),
    ensures
        ({
            let p = line_start(s, k);
            let s2 = s.take(p) + u + s.skip(p);
            &&& k < num_lines(s2)
            &&& line_start(s2, k) == p
            &&& line_end(s2, k) >= p + u.len()
        }),
{
    lemma_line_starts(s);
    let p = line_start(s, k);
    let s2 = s.take(p) + u + s.skip(p);
    let m = u.len();
    assert(s2.len() == s.len() + m);
    assert forall|j: int| 0 <= j < p implies s2[j] == s[j] by {}
    lemma_starts_upto_shape(s, s.len());
    assert forall|j: int| 0 < j <= p implies starts_line(s2, j) == starts_line(s, j) by {
        if j == p {
            assert(k > 0) by {
                if k == 0 {
                    assert(line_start(s, 0) == 0);
                }
            }
            assert(line_starts(s)[k] == p);
            assert(starts_line(s, p));
            if m > 0 {
                assert(s2[p] == u[0]);
            } else {
                assert(s2 =~= s);
            }
        }
    }
    lemma_starts_upto_same_prefix(s, s2, p as nat, p);
    lemma_starts_up_to_line(s, k);
    // No line starts inside `u`.
    lemma_no_starts_inside(s2, p, m, u, (p + m) as nat);
    let q = starts_upto(s2, p as nat);
    assert(q.len() == k + 1);
    lemma_starts_upto_shape(s2, s2.len());
    lemma_starts_upto_prefix(s2, (p + m) as nat, s2.len());
    assert(starts_upto(s2, (p + m) as nat) == q);
    assert(line_starts(s2)[k] == q[k]);
    if k + 1 < num_lines(s2) {
        assert(line_starts(s2)[k + 1] > p + m);
    }
}

/// Positions right after the characters of `u`, which are no line breaks, start no line.
proof fn lemma_no_starts_inside(s2: Seq<char>, p: int, m: nat, u: Seq<char>, i: nat)
    requires
        0 <= p,
        p <= i <= p + m,
        p + m <= s2.len(),
        u.len() == m,
        forall|j: int| 0 <= j < m ==> s2[p + j] == u[j],
        forall|j: int| 0 <= j < u.len() ==> !is_line_break(#[trigger] u[j]),
    ensures
        starts_upto(s2, i) == starts_upto(s2, p as nat),
    decreases i - p,
{
    if i > p {
        lemma_no_starts_inside(s2, p, m, u, (i - 1) as nat);
        assert(s2[i - 1] == u[i - 1 - p]);
        assert(!starts_line(s2, i as int));
    }
}


/// Position `i` lies between the CR and the LF of a CR LF pair.
pub open spec fn splits_crlf(s: Seq<char>, i: int) -> bool {
    0 < i < s.len() && s[i - 1] == '\r' && s[i] == '\n'
}

/// Text `u` with no line break, put at column `c` of line `k`, keeps line `k` starting where
/// it did and column `c` on it. (Put between a CR and its LF, it ends line `k` right there,
/// after the CR.)
pub proof fn lemma_insert_within_line(s: Seq<char>, k: int, c: int, u: Seq<char>)
    requires
        0 <= k < num_lines(s),
        0 <= c <= line_length(s, k),
        forall|j: int| 0 <= j < u.len() ==> !is_line_break(#[trigger] u[j]),
    ensures
        ({
            let i = line_start(s, k) + c;
            let s2 = s.take(i) + u + s.skip(i);
            &&& k < num_lines(s2)
            &&& line_start(s2, k) == line_start(s, k)
            &&& c <= line_length(s2, k)
        }),
{
    let p = line_start(s, k);
    let i = p + c;
    let s2 = s.take(i) + u + s.skip(i);
    let m = u.len();
    assert(0 <= p <= i <= line_end(s, k) <= s.len()) by {
        lemma_line_starts(s);
        lemma_index_of_valid(s, k, c);
    }
    if m == 0 {
        assert(s2 =~= s);
        return;
    }
    if splits_crlf(s, i) {
        lemma_insert_into_crlf(s, k, c, u);
        return;
    }
    assert(starts_upto(s2, i as nat) == starts_upto(s, i as nat)) by {
        assert forall|j: int| 0 <= j < i implies s2[j] == s[j] by {}
        assert forall|j: int| 0 < j <= i implies starts_line(s2, j) == starts_line(s, j) by {
            if j == i {
                assert(s2[i] == u[0]);
            }
        }
        lemma_starts_upto_same_prefix(s, s2, i as nat, i);
    }
    assert(starts_upto(s2, (i + m) as nat) == starts_upto(s2, i as nat)) by {
        lemma_no_starts_inside(s2, i, m, u, (i + m) as nat);
    }
    let si = starts_upto(s, i as nat);
    assert(si.len() >= k + 1 && si[k] == p) by {
        lemma_starts_up_to_line(s, k);
        lemma_starts_upto_prefix(s, p as nat, i as nat);
    }
    assert(line_starts(s2).len() >= si.len() && line_starts(s2).take(si.len() as int) == si
        && forall|j: int| si.len() <= j < line_starts(s2).len() ==> #[trigger] line_starts(s2)[j] > i
        + m) by {
        lemma_starts_upto_prefix(s2, (i + m) as nat, s2.len());
    }
    assert(line_starts(s2)[k] == si[k]);
    if si.len() == k + 1 {
        let e2 = line_end(s2, k);
        assert(e2 >= i + m) by {
            if k + 1 < num_lines(s2) {
                assert(line_starts(s2)[k + 1] > i + m);
            }
        }
        let t = line_text(s2, k);
        assert(t.len() == e2 - p) by {
            lemma_line_starts(s2);
        }
        if t.len() == c + m {
            assert(t.last() == s2[i + m - 1]);
            assert(s2[i + m - 1] == u[m - 1]);
        }
    } else {
        assert(si[k + 1] <= i) by {
            lemma_starts_upto_shape(s, i as nat);
        }
        assert(k + 1 < num_lines(s) && line_starts(s)[k + 1] == si[k + 1]) by {
            lemma_starts_upto_prefix(s, i as nat, s.len());
        }
        assert(line_end(s, k) == i);
        assert(line_starts(s2)[k + 1] == si[k + 1]);
        assert(line_text(s2, k) =~= line_text(s, k));
    }
}


/// The case of `lemma_insert_within_line` where column `c` lies between a CR and its LF: the
/// CR then ends line `k` on its own.
proof fn lemma_insert_into_crlf(s: Seq<char>, k: int, c: int, u: Seq<char>)
    requires
        0 <= k < num_lines(s),
        0 <= c <= line_length(s, k),
        splits_crlf(s, line_start(s, k) + c),
        u.len() > 0,
        forall|j: int| 0 <= j < u.len() ==> !is_line_break(#[trigger] u[j]),
    ensures
        ({
            let i = line_start(s, k) + c;
            let s2 = s.take(i) + u + s.skip(i);
            &&& k < num_lines(s2)
            &&& line_start(s2, k) == line_start(s, k)
            &&& c <= line_length(s2, k)
        }),
{
    let p = line_start(s, k);
    let i = p + c;
    let s2 = s.take(i) + u + s.skip(i);
    let m = u.len();
    assert(0 <= p <= i <= line_end(s, k) <= s.len()) by {
        lemma_line_starts(s);
        lemma_index_of_valid(s, k, c);
    }
    assert(!starts_line(s, i));
    assert(starts_line(s2, i)) by {
        assert(s2[i - 1] == s[i - 1]);
        assert(s2[i] == u[0]);
    }
    assert(starts_upto(s2, (i - 1) as nat) == starts_upto(s, (i - 1) as nat)) by {
        assert forall|j: int| 0 <= j < i - 1 implies s2[j] == s[j] by {}
        assert forall|j: int| 0 < j <= i - 1 implies starts_line(s2, j) == starts_line(s, j) by {
            assert(s2[j - 1] == s[j - 1]);
            assert(s2[j] == s[j]);
        }
        lemma_starts_upto_same_prefix(s, s2, (i - 1) as nat, i - 1);
    }
    let si = starts_upto(s, i as nat);
    assert(si == starts_upto(s, (i - 1) as nat));
    assert(starts_upto(s2, i as nat) == si.push(i));
    assert(starts_upto(s2, (i + m) as nat) == starts_upto(s2, i as nat)) by {
        lemma_no_starts_inside(s2, i, m, u, (i + m) as nat);
    }
    assert(si.len() >= k + 1 && si[k] == p) by {
        lemma_starts_up_to_line(s, k);
        lemma_starts_upto_prefix(s, p as nat, i as nat);
    }
    assert(si.len() == k + 1) by {
        lemma_starts_upto_shape(s, i as nat);
        lemma_starts_upto_prefix(s, i as nat, s.len());
        if si.len() > k + 1 {
            assert(si[k + 1] <= i);
            assert(si[k + 1] != i);
            assert(k + 1 < num_lines(s) && line_starts(s)[k + 1] == si[k + 1]);
            assert(line_end(s, k) == si[k + 1]);
        }
    }
    assert(line_starts(s2).len() >= k + 2 && line_starts(s2)[k] == p && line_starts(s2)[k + 1] == i)
        by {
        lemma_starts_upto_prefix(s2, (i + m) as nat, s2.len());
        assert(starts_upto(s2, (i + m) as nat)[k] == p);
        assert(starts_upto(s2, (i + m) as nat)[k + 1] == i);
    }
    assert(p < i) by {
        lemma_line_starts(s);
        lemma_starts_upto_shape(s, s.len());
        if k > 0 {
            assert(starts_line(s, starts_upto(s, s.len())[k]));
            assert(starts_upto(s, s.len())[k] == p);
        }
    }
    let t = line_text(s2, k);
    assert(t =~= s.subrange(p, i));
    assert(t.last() == s[i - 1]);
}


/// Every line break of `t` is a line feed.
pub open spec fn lf_only(t: Seq<char>) -> bool {
    forall|i: int| 0 <= i < t.len() && is_line_break(#[trigger] t[i]) ==> t[i] == '\n'
}

/// `t` holds no line break.
pub open spec fn no_breaks(t: Seq<char>) -> bool {
    forall|i: int| 0 <= i < t.len() ==> !is_line_break(#[trigger] t[i])
}

/// In a text whose line breaks are line feeds, adding a character adds a line start after
/// it exactly when it is a line feed.
pub proof fn lemma_lf_starts_push(t1: Seq<char>, c: char)
    requires
        lf_only(t1.push(c)),
    ensures
        lf_only(t1),
        line_starts(t1.push(c)) == if c == '\n' {
            line_starts(t1).push((t1.len() + 1) as int)
        } else {
            line_starts(t1)
        },
{
    let t = t1.push(c);
    let n1 = t1.len();
    assert forall|i: int| 0 <= i < t1.len() && is_line_break(#[trigger] t1[i]) implies t1[i] == '\n' by {
        assert(t[i] == t1[i]);
    }
    assert forall|j: int| 0 < j <= n1 implies starts_line(t, j) == starts_line(t1, j) by {
        assert(t[j - 1] == t1[j - 1]);
        if is_line_break(t1[j - 1]) {
            assert(t1[j - 1] == '\n');
        }
    }
    assert forall|j: int| 0 <= j < n1 implies t[j] == t1[j] by {}
    lemma_starts_upto_same_prefix(t1, t, n1, n1 as int);
    assert(starts_line(t, (n1 + 1) as int) == (c == '\n')) by {
        assert(t[n1 as int] == c);
        if is_line_break(c) {
            assert(t[n1 as int] == '\n');
        }
    }
}

} // verus!
