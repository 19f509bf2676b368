//! The order in which `String`s compare (`Ord for str`): byte by byte, which for UTF-8 text
//! is code point by code point, a prefix coming first; and sorting lines by it.

use vstd::prelude::*;
use crate::text::views_of;

verus! {

/// `a` comes before `b`, or equals it, in the order of strings.
pub open spec fn chars_le(a: Seq<char>, b: Seq<char>) -> bool
    decreases a.len(),
{
    if a.len() == 0 {
        true
    } else if b.len() == 0 {
        false
    } else if a[0] != b[0] {
        (a[0] as int) < (b[0] as int)
    } else {
        chars_le(a.drop_first(), b.drop_first())
    }
}

/// Each line comes before, or equals, every later one.
pub open spec fn sorted_lines(s: Seq<Seq<char>>) -> bool {
    forall|i: int, j: int| 0 <= i < j < s.len() ==> chars_le(#[trigger] s[i], #[trigger] s[j])
}

/// Any two texts compare one way or the other.
pub proof fn lemma_chars_le_total(a: Seq<char>, b: Seq<char>)
    ensures
        chars_le(a, b) || chars_le(b, a),
    decreases a.len(),
{
    if a.len() > 0 && b.len() > 0 && a[0] == b[0] {
        lemma_chars_le_total(a.drop_first(), b.drop_first());
    }
}

/// The order of texts is transitive.
pub proof fn lemma_chars_le_transitive(a: Seq<char>, b: Seq<char>, c: Seq<char>)
    requires
        chars_le(a, b),
        chars_le(b, c),
    ensures
        chars_le(a, c),
    decreases a.len(),
{
    if a.len() > 0 && b.len() > 0 && c.len() > 0 && a[0] == b[0] && b[0] == c[0] {
        lemma_chars_le_transitive(a.drop_first(), b.drop_first(), c.drop_first());
    }
}

/// Texts that come before each other are equal.
pub proof fn lemma_chars_le_antisymmetric(a: Seq<char>, b: Seq<char>)
    requires
        chars_le(a, b),
        chars_le(b, a),
    ensures
        a == b,
    decreases a.len(),
{
    if a.len() > 0 && b.len() > 0 {
        lemma_chars_le_antisymmetric(a.drop_first(), b.drop_first());
        assert(a =~= seq![a[0]] + a.drop_first());
        assert(b =~= seq![b[0]] + b.drop_first());
    } else {
        assert(a =~= b);
    }
}

/// Sorting is determined: two sorted orderings of the same lines are the same sequence.
pub proof fn lemma_sorted_lines_unique(a: Seq<Seq<char>>, b: Seq<Seq<char>>)
    requires
        sorted_lines(a),
        sorted_lines(b),
        a.to_multiset() == b.to_multiset(),
    ensures
        a == b,
    decreases a.len(),
{
    vstd::seq_lib::to_multiset_len(a);
    vstd::seq_lib::to_multiset_len(b);
    if a.len() == 0 {
        assert(a =~= b);
    } else {
        vstd::seq_lib::to_multiset_contains(b, a[0]);
        vstd::seq_lib::to_multiset_contains(a, b[0]);
        vstd::seq_lib::to_multiset_contains(a, a[0]);
        vstd::seq_lib::to_multiset_contains(b, b[0]);
        assert(a.contains(a[0]));
        assert(b.contains(b[0]));
        let j = choose|j: int| 0 <= j < b.len() && b[j] == a[0];
        let i = choose|i: int| 0 <= i < a.len() && a[i] == b[0];
        if j > 0 {
            assert(chars_le(b[0], b[j]));
        } else {
            lemma_chars_le_total(b[0], b[0]);
        }
        if i > 0 {
            assert(chars_le(a[0], a[i]));
        } else {
            lemma_chars_le_total(a[0], a[0]);
        }
        lemma_chars_le_antisymmetric(a[0], b[0]);
        vstd::seq_lib::to_multiset_remove(a, 0);
        vstd::seq_lib::to_multiset_remove(b, 0);
        assert(a.remove(0) =~= a.drop_first());
        assert(b.remove(0) =~= b.drop_first());
        assert(sorted_lines(a.drop_first())) by {
            assert forall|x: int, y: int| 0 <= x < y < a.drop_first().len() implies chars_le(
                #[trigger] a.drop_first()[x],
                #[trigger] a.drop_first()[y],
            ) by {
                assert(chars_le(a[x + 1], a[y + 1]));
            }
        }
        assert(sorted_lines(b.drop_first())) by {
            assert forall|x: int, y: int| 0 <= x < y < b.drop_first().len() implies chars_le(
                #[trigger] b.drop_first()[x],
                #[trigger] b.drop_first()[y],
            ) by {
                assert(chars_le(b[x + 1], b[y + 1]));
            }
        }
        lemma_sorted_lines_unique(a.drop_first(), b.drop_first());
        assert(a =~= seq![a[0]] + a.drop_first());
        assert(b =~= seq![b[0]] + b.drop_first());
    }
}

/// Whether `a` comes before, or equals, `b` (`String`'s `<=`).
pub fn chars_le_exec(a: &[char], b: &[char]) -> (r: bool)
    ensures
        r == chars_le(a@, b@),
{
    let mut i: usize = 0;
    assert(a@.skip(0) == a@ && b@.skip(0) == b@);
    while i < a.len() && i < b.len()
        invariant
            i <= a@.len(),
            i <= b@.len(),
            chars_le(a@, b@) == chars_le(a@.skip(i as int), b@.skip(i as int)),
        decreases a@.len() - i,
    {
        if a[i] != b[i] {
            return a[i] < b[i];
        }
        proof {
            assert(a@.skip(i as int).drop_first() == a@.skip(i + 1));
            assert(b@.skip(i as int).drop_first() == b@.skip(i + 1));
        }
        i += 1;
    }
    i == a.len()
}

/// The lines of `lines` in the order of strings (`Vec::sort` of the lines as strings): the
/// result is sorted and holds the same lines, each as often.
pub fn sort_char_lines(lines: Vec<Vec<char>>) -> (r: Vec<Vec<char>>)
    ensures
        sorted_lines(views_of(r@)),
        views_of(r@).to_multiset() == views_of(lines@).to_multiset(),
{
    let mut out: Vec<Vec<char>> = Vec::new();
    let n = lines.len();
    let mut k: usize = 0;
    assert(views_of(out@) =~= views_of(lines@.take(0)));
    while k < n
        invariant
            n == lines@.len(),
            k <= n,
            sorted_lines(views_of(out@)),
            views_of(out@).to_multiset() == views_of(lines@.take(k as int)).to_multiset(),
        decreases n - k,
    {
        let x = lines[k].clone();
        let mut p: usize = 0;
        while p < out.len() && chars_le_exec(out[p].as_slice(), x.as_slice())
            invariant
                p <= out@.len(),
                forall|i: int| 0 <= i < p ==> chars_le(#[trigger] out@[i]@, x@),
            decreases out@.len() - p,
        {
            p += 1;
        }
        let ghost before = views_of(out@);
        proof {
            if p < out@.len() {
                lemma_chars_le_total(out@[p as int]@, x@);
            }
        }
        out.insert(p, x);
        proof {
            let after = views_of(out@);
            assert(after =~= before.insert(p as int, x@));
            assert forall|i: int, j: int| 0 <= i < j < after.len() implies chars_le(
                #[trigger] after[i],
                #[trigger] after[j],
            ) by {
                if j < p {
                    assert(after[i] == before[i] && after[j] == before[j]);
                } else if j == p {
                    assert(after[i] == before[i]);
                } else if i == p {
                    assert(after[j] == before[j - 1]);
                    if j - 1 > p {
                        assert(chars_le(before[p as int], before[j - 1]));
                        lemma_chars_le_transitive(x@, before[p as int], before[j - 1]);
                    }
                } else if i < p {
                    assert(after[i] == before[i] && after[j] == before[j - 1]);
                    if i < j - 1 {
                        assert(chars_le(before[i], before[j - 1]));
                    } else {
                        assert(chars_le(before[i], x@));
                        lemma_chars_le_transitive(before[i], x@, before[j - 1]);
                    }
                } else {
                    assert(after[i] == before[i - 1] && after[j] == before[j - 1]);
                }
            }
            vstd::seq_lib::to_multiset_insert(before, p as int, x@);
            assert(lines@.take(k + 1) =~= lines@.take(k as int).push(lines@[k as int]));
            assert(views_of(lines@.take(k + 1)) =~= views_of(lines@.take(k as int)).push(x@));
            vstd::seq_lib::to_multiset_build(views_of(lines@.take(k as int)), x@);
        }
        k += 1;
    }
    proof {
        assert(lines@.take(n as int) =~= lines@);
    }
    out
}

} // verus!
