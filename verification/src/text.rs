use vstd::prelude::*;

verus! {

/// Compares two string slices for equality (`str`'s `==`).
#[verifier::external_body]
pub(crate) fn str_eq(a: &str, b: &str) -> (r: bool)
    ensures
        r == (a@ == b@),
{
    a == b
}

/// The characters of `s`, in order (`str::chars`, collected).
#[verifier::external_body]
pub(crate) fn chars_of(s: &str) -> (v: Vec<char>)
    ensures
        v@ == s@,
{
    s.chars().collect()
}

/// The string made of the characters of `v`, in order (collecting chars into a `String`).
#[verifier::external_body]
pub(crate) fn string_from_chars(v: &[char]) -> (s: String)
    ensures
        s@ == v@,
{
    v.iter().collect()
}

/// A copy of `s` as an owned string.
pub fn owned(s: &str) -> (r: String)
    ensures
        r@ == s@,
{
    s.to_owned()
}

/// Whether `s` begins with `prefix`.
pub open spec fn has_prefix(s: Seq<char>, prefix: Seq<char>) -> bool {
    prefix.len() <= s.len() && s.take(prefix.len() as int) == prefix
}

/// Whether `needle` occurs in `hay` starting at index `i`.
pub open spec fn occurs_at(hay: Seq<char>, needle: Seq<char>, i: int) -> bool {
    0 <= i && i + needle.len() <= hay.len() && hay.subrange(i, i + needle.len()) == needle
}

/// Whether `needle` occurs anywhere in `hay`.
pub open spec fn contains_seq(hay: Seq<char>, needle: Seq<char>) -> bool {
    exists|i: int| #[trigger] occurs_at(hay, needle, i)
}

/// Whether `v` begins with `prefix`.
pub fn starts_with(v: &[char], prefix: &[char]) -> (r: bool)
    ensures
        r == has_prefix(v@, prefix@),
{
    if prefix.len() > v.len() {
        return false;
    }
    let mut i: usize = 0;
    while i < prefix.len()
        invariant
            prefix@.len() <= v@.len(),
            0 <= i <= prefix.len(),
            forall|j: int| 0 <= j < i ==> v@[j] == prefix@[j],
        decreases prefix.len() - i,
    {
        if v[i] != prefix[i] {
            proof {
                assert(v@.take(prefix@.len() as int)[i as int] != prefix@[i as int]);
            }
            return false;
        }
        i += 1;
    }
    proof {
        assert(v@.take(prefix@.len() as int) =~= prefix@);
    }
    true
}

/// Whether `needle` occurs in `hay` at index `i`.
pub fn matches_at(hay: &[char], needle: &[char], i: usize) -> (r: bool)
    ensures
        r == occurs_at(hay@, needle@, i as int),
{
    if i > hay.len() || needle.len() > hay.len() - i {
        return false;
    }
    let mut j: usize = 0;
    while j < needle.len()
        invariant
            i + needle.len() <= hay.len(),
            0 <= j <= needle.len(),
            forall|k: int| 0 <= k < j ==> hay@[i + k] == needle@[k],
        decreases needle.len() - j,
    {
        if hay[i + j] != needle[j] {
            proof {
                assert(hay@.subrange(i as int, i + needle@.len())[j as int] != needle@[j as int]);
            }
            return false;
        }
        j += 1;
    }
    proof {
        assert(hay@.subrange(i as int, i + needle@.len()) =~= needle@);
    }
    true
}

/// Whether `needle` occurs anywhere in `hay`.
pub fn contains_chars(hay: &[char], needle: &[char]) -> (r: bool)
    ensures
        r == contains_seq(hay@, needle@),
{
    if needle.len() > hay.len() {
        proof {
            assert forall|i: int| !occurs_at(hay@, needle@, i) by {}
        }
        return false;
    }
    let last = hay.len() - needle.len();
    let mut i: usize = 0;
    loop
        invariant
            last + needle@.len() == hay@.len(),
            0 <= i <= last,
            forall|k: int| 0 <= k < i ==> !occurs_at(hay@, needle@, k),
        ensures
            forall|k: int| 0 <= k <= last ==> !occurs_at(hay@, needle@, k),
        decreases last - i,
    {
        if matches_at(hay, needle, i) {
            return true;
        }
        if i == last {
            break;
        }
        i += 1;
    }
    proof {
        assert forall|k: int| !occurs_at(hay@, needle@, k) by {
            if 0 <= k && k <= last {
            }
        }
    }
    false
}

} // verus!

verus! {

/// `s` cut at every `sep` (the pieces of `str::split`): there is always at least one piece.
pub open spec fn split_on(s: Seq<char>, sep: char) -> Seq<Seq<char>>
    decreases s.len(),
{
    if s.len() == 0 {
        seq![Seq::<char>::empty()]
    } else {
        let p = split_on(s.drop_last(), sep);
        if s.last() == sep {
            p.push(Seq::<char>::empty())
        } else {
            p.update(p.len() - 1, p.last().push(s.last()))
        }
    }
}

pub proof fn lemma_split_on_nonempty(s: Seq<char>, sep: char)
    ensures
        split_on(s, sep).len() >= 1,
    decreases s.len(),
{
    if s.len() > 0 {
        lemma_split_on_nonempty(s.drop_last(), sep);
    }
}

/// A line without the `'\r'` that ends it, if any.
pub open spec fn strip_cr(l: Seq<char>) -> Seq<char> {
    if l.len() > 0 && l.last() == '\r' { l.drop_last() } else { l }
}

/// The lines of `s` as `str::lines` gives them: cut at `'\n'`, a `'\r'` before a `'\n'`
/// dropped, and no empty line after a final `'\n'`.
pub open spec fn text_lines(s: Seq<char>) -> Seq<Seq<char>> {
    if s.len() == 0 {
        seq![]
    } else {
        let p = split_on(s, '\n');
        let body = p.take(p.len() - 1).map_values(|l: Seq<char>| strip_cr(l));
        if p.last().len() == 0 { body } else { body.push(p.last()) }
    }
}

pub open spec fn views_of(v: Seq<Vec<char>>) -> Seq<Seq<char>> {
    v.map_values(|x: Vec<char>| x@)
}

/// The pieces of `s` between occurrences of `sep`.
pub fn split_chars(s: &[char], sep: char) -> (r: Vec<Vec<char>>)
    ensures
        views_of(r@) == split_on(s@, sep),
        r@.len() >= 1,
{
    let mut pieces: Vec<Vec<char>> = Vec::new();
    let mut cur: Vec<char> = Vec::new();
    let mut i: usize = 0;
    while i < s.len()
        invariant
            0 <= i <= s@.len(),
            views_of(pieces@).push(cur@) == split_on(s@.take(i as int), sep),
        decreases s@.len() - i,
    {
        let ghost before = s@.take(i as int);
        proof {
            assert(s@.take(i + 1).drop_last() == before);
            assert(s@.take(i + 1).last() == s@[i as int]);
            lemma_split_on_nonempty(before, sep);
        }
        if s[i] == sep {
            let done = cur;
            pieces.push(done);
            cur = Vec::new();
            proof {
                assert(views_of(pieces@).push(cur@) =~= split_on(before, sep).push(Seq::<char>::empty()));
            }
        } else {
            cur.push(s[i]);
            proof {
                let p = split_on(before, sep);
                assert(views_of(pieces@).push(cur@) =~= p.update(p.len() - 1, p.last().push(s@[i as int])));
            }
        }
        i += 1;
    }
    pieces.push(cur);
    proof {
        assert(s@.take(s@.len() as int) == s@);
        assert(views_of(pieces@) =~= split_on(s@, sep));
    }
    pieces
}

/// The lines of `s`, as `str::lines` cuts them.
pub fn lines_of(s: &[char]) -> (r: Vec<Vec<char>>)
    ensures
        views_of(r@) == text_lines(s@),
{
    if s.len() == 0 {
        let r: Vec<Vec<char>> = Vec::new();
        proof {
            assert(views_of(r@) =~= text_lines(s@));
        }
        return r;
    }
    let pieces = split_chars(s, '\n');
    let n = pieces.len();
    let ghost p = split_on(s@, '\n');
    let ghost body = p.take(p.len() - 1).map_values(|l: Seq<char>| strip_cr(l));
    let mut out: Vec<Vec<char>> = Vec::new();
    let mut i: usize = 0;
    while i + 1 < n
        invariant
            n == pieces@.len() >= 1,
            views_of(pieces@) == p,
            body == p.take(p.len() - 1).map_values(|l: Seq<char>| strip_cr(l)),
            0 <= i <= n - 1,
            views_of(out@) == body.take(i as int),
        decreases n - i,
    {
        let piece = &pieces[i];
        let mut line: Vec<char> = Vec::new();
        let len = piece.len();
        let keep = if len > 0 && piece[len - 1] == '\r' { len - 1 } else { len };
        let mut j: usize = 0;
        while j < keep
            invariant
                0 <= j <= keep <= piece@.len(),
                line@ == piece@.take(j as int),
            decreases keep - j,
        {
            line.push(piece[j]);
            proof {
                assert(piece@.take(j + 1) == piece@.take(j as int).push(piece@[j as int]));
            }
            j += 1;
        }
        proof {
            assert(views_of(pieces@)[i as int] == pieces@[i as int]@);
            assert(p[i as int] == piece@);
            assert(line@ =~= strip_cr(piece@));
            assert(p.take(p.len() - 1)[i as int] == p[i as int]);
            assert(body[i as int] == strip_cr(p[i as int]));
        }
        let ghost old_out = out@;
        out.push(line);
        proof {
            assert(views_of(out@) =~= views_of(old_out).push(body[i as int]));
            assert(body.take(i + 1) =~= body.take(i as int).push(body[i as int]));
        }
        i += 1;
    }
    proof {
        assert(body.take(i as int) =~= body);
    }
    let last = n - 1;
    let lastp = &pieces[last];
    proof {
        assert(views_of(pieces@)[last as int] == lastp@);
    }
    if lastp.len() > 0 {
        let mut tail: Vec<char> = Vec::new();
        let mut j: usize = 0;
        while j < lastp.len()
            invariant
                0 <= j <= lastp@.len(),
                tail@ == lastp@.take(j as int),
            decreases lastp@.len() - j,
        {
            tail.push(lastp[j]);
            proof {
                let q = lastp@;
                assert(q.take(j + 1) == q.take(j as int).push(q[j as int]));
            }
            j += 1;
        }
        out.push(tail);
        proof {
            assert(tail@ =~= p.last());
            assert(views_of(out@) =~= body.push(p.last()));
        }
    }
    out
}

/// Characters Unicode classes as white space (`char::is_whitespace`).
pub open spec fn is_white_space(c: char) -> bool {
    c == ' ' || ('\t' <= c && c <= '\r') || c == '\u{85}' || c == '\u{a0}' || c == '\u{1680}' || (
    '\u{2000}' <= c && c <= '\u{200a}') || c == '\u{2028}' || c == '\u{2029}' || c == '\u{202f}'
        || c == '\u{205f}' || c == '\u{3000}'
}

pub fn white_space(c: char) -> (r: bool)
    ensures
        r == is_white_space(c),
{
    c == ' ' || ('\t' <= c && c <= '\r') || c == '\u{85}' || c == '\u{a0}' || c == '\u{1680}' || (
    '\u{2000}' <= c && c <= '\u{200a}') || c == '\u{2028}' || c == '\u{2029}' || c == '\u{202f}'
        || c == '\u{205f}' || c == '\u{3000}'
}

/// The white-space separated words of `s` (`str::split_whitespace`).
pub open spec fn ws_tokens(s: Seq<char>) -> Seq<Seq<char>>
    decreases s.len(),
{
    if s.len() == 0 {
        seq![]
    } else {
        let t = ws_tokens(s.drop_last());
        let c = s.last();
        if is_white_space(c) {
            t
        } else if s.len() > 1 && !is_white_space(s[s.len() - 2]) {
            t.update(t.len() - 1, t.last().push(c))
        } else {
            t.push(seq![c])
        }
    }
}

pub proof fn lemma_ws_tokens_nonempty(s: Seq<char>)
    requires
        s.len() > 0,
        !is_white_space(s.last()),
    ensures
        ws_tokens(s).len() > 0,
    decreases s.len(),
{
    if s.len() > 1 && !is_white_space(s[s.len() - 2]) {
        assert(s.drop_last().last() == s[s.len() - 2]);
        lemma_ws_tokens_nonempty(s.drop_last());
    }
}

/// The white-space separated words of `s`.
pub fn split_white_space(s: &[char]) -> (r: Vec<Vec<char>>)
    ensures
        views_of(r@) == ws_tokens(s@),
{
    let mut tokens: Vec<Vec<char>> = Vec::new();
    let mut i: usize = 0;
    while i < s.len()
        invariant
            0 <= i <= s@.len(),
            views_of(tokens@) == ws_tokens(s@.take(i as int)),
        decreases s@.len() - i,
    {
        let ghost before = s@.take(i as int);
        let ghost t = ws_tokens(before);
        proof {
            assert(s@.take(i + 1).drop_last() == before);
            assert(s@.take(i + 1).last() == s@[i as int]);
        }
        let c = s[i];
        if white_space(c) {
        } else if i > 0 && !white_space(s[i - 1]) {
            proof {
                assert(s@.take(i + 1)[i - 1] == s@[i - 1]);
                assert(before.last() == s@[i - 1]);
                lemma_ws_tokens_nonempty(before);
            }
            let mut last = tokens.pop().unwrap();
            last.push(c);
            tokens.push(last);
            proof {
                assert(views_of(tokens@) =~= t.update(t.len() - 1, t.last().push(c)));
            }
        } else {
            let mut fresh: Vec<char> = Vec::new();
            fresh.push(c);
            tokens.push(fresh);
            proof {
                if i > 0 {
                    assert(s@.take(i + 1)[i - 1] == s@[i - 1]);
                }
                assert(views_of(tokens@) =~= t.push(seq![c]));
            }
        }
        i += 1;
    }
    proof {
        assert(s@.take(s@.len() as int) == s@);
    }
    tokens
}

/// `s` without its leading run of `c`.
pub open spec fn trim_leading(s: Seq<char>, c: char) -> Seq<char>
    decreases s.len(),
{
    if s.len() > 0 && s[0] == c { trim_leading(s.drop_first(), c) } else { s }
}

pub fn trim_leading_chars(s: &[char], c: char) -> (r: Vec<char>)
    ensures
        r@ == trim_leading(s@, c),
{
    let mut i: usize = 0;
    proof {
        assert(s@.skip(0) == s@);
    }
    while i < s.len() && s[i] == c
        invariant
            0 <= i <= s@.len(),
            trim_leading(s@, c) == trim_leading(s@.skip(i as int), c),
        decreases s@.len() - i,
    {
        proof {
            assert(s@.skip(i as int).drop_first() == s@.skip(i + 1));
        }
        i += 1;
    }
    let mut r: Vec<char> = Vec::new();
    let mut j: usize = i;
    while j < s.len()
        invariant
            i <= j <= s@.len(),
            r@ == s@.subrange(i as int, j as int),
        decreases s@.len() - j,
    {
        r.push(s[j]);
        proof {
            assert(s@.subrange(i as int, j + 1) == s@.subrange(i as int, j as int).push(s@[j as int]));
        }
        j += 1;
    }
    proof {
        assert(r@ =~= s@.skip(i as int));
    }
    r
}

/// The part of `s` before its first `sep` (all of `s` when there is none).
pub open spec fn before_first(s: Seq<char>, sep: char) -> Seq<char>
    decreases s.len(),
{
    if s.len() == 0 {
        s
    } else if s[0] == sep {
        Seq::<char>::empty()
    } else {
        seq![s[0]] + before_first(s.drop_first(), sep)
    }
}

pub fn before_first_chars(s: &[char], sep: char) -> (r: Vec<char>)
    ensures
        r@ == before_first(s@, sep),
{
    let mut r: Vec<char> = Vec::new();
    let mut i: usize = 0;
    proof {
        assert(s@.skip(0) == s@);
        assert(r@ + before_first(s@, sep) =~= before_first(s@, sep));
    }
    while i < s.len() && s[i] != sep
        invariant
            0 <= i <= s@.len(),
            r@ == s@.take(i as int),
            before_first(s@, sep) == r@ + before_first(s@.skip(i as int), sep),
        decreases s@.len() - i,
    {
        proof {
            assert(s@.skip(i as int).drop_first() == s@.skip(i + 1));
            assert(s@.skip(i as int)[0] == s@[i as int]);
            assert(r@ + (seq![s@[i as int]] + before_first(s@.skip(i + 1), sep)) == r@.push(s@[i as int])
                + before_first(s@.skip(i + 1), sep));
        }
        r.push(s[i]);
        proof {
            assert(s@.take(i + 1) == s@.take(i as int).push(s@[i as int]));
        }
        i += 1;
    }
    proof {
        if i < s@.len() {
            assert(s@.skip(i as int)[0] == sep);
        }
        assert(r@ + Seq::<char>::empty() == r@);
    }
    r
}

pub open spec fn is_digit(c: char) -> bool {
    '0' <= c && c <= '9'
}

pub open spec fn digit_value(c: char) -> nat {
    (c as u32 - '0' as u32) as nat
}

/// The number written by the decimal digits `s`.
pub open spec fn decimal_value(s: Seq<char>) -> nat
    decreases s.len(),
{
    if s.len() == 0 { 0 } else { decimal_value(s.drop_last()) * 10 + digit_value(s.last()) }
}

/// What `usize::from_str` gives for `s`: an optional `'+'`, then one or more decimal digits
/// whose value fits in a `usize`.
/// `s` without one leading `'+'`.
pub open spec fn unsigned_digits(s: Seq<char>) -> Seq<char> {
    if s.len() > 0 && s[0] == '+' { s.drop_first() } else { s }
}

pub open spec fn parse_usize(s: Seq<char>) -> Option<usize> {
    let digits = unsigned_digits(s);
    if digits.len() == 0 || exists|i: int| 0 <= i < digits.len() && !is_digit(#[trigger] digits[i]) {
        None
    } else if decimal_value(digits) > usize::MAX {
        None
    } else {
        Some(decimal_value(digits) as usize)
    }
}

proof fn lemma_decimal_prefix_le(s: Seq<char>, i: int)
    requires
        0 <= i <= s.len(),
    ensures
        decimal_value(s.take(i)) <= decimal_value(s),
    decreases s.len(),
{
    if i < s.len() {
        assert(s.drop_last().take(i) == s.take(i));
        lemma_decimal_prefix_le(s.drop_last(), i);
    } else {
        assert(s.take(i) == s);
    }
}

/// Parses a decimal `usize` the way `usize::from_str` does.
pub fn parse_usize_chars(s: &[char]) -> (r: Option<usize>)
    ensures
        r == parse_usize(s@),
{
    let start: usize = if s.len() > 0 && s[0] == '+' { 1 } else { 0 };
    let ghost digits = unsigned_digits(s@);
    proof {
        assert(digits == s@.skip(start as int));
    }
    if start == s.len() {
        return None;
    }
    let mut value: usize = 0;
    let mut i: usize = start;
    while i < s.len()
        invariant
            start <= i <= s@.len(),
            start < s@.len(),
            digits == s@.skip(start as int),
            digits == unsigned_digits(s@),
            value == decimal_value(digits.take(i - start)),
            forall|k: int| 0 <= k < i - start ==> is_digit(#[trigger] digits[k]),
        decreases s@.len() - i,
    {
        let c = s[i];
        proof {
            assert(digits[i - start] == c);
        }
        if !('0' <= c && c <= '9') {
            proof {
                assert(!is_digit(digits[i - start]));
                assert(exists|k: int| 0 <= k < digits.len() && !is_digit(#[trigger] digits[k]));
            }
            return None;
        }
        let d = (c as u32 - '0' as u32) as usize;
        proof {
            let t = digits.take(i - start + 1);
            assert(t.drop_last() == digits.take(i - start));
            assert(t.last() == c);
            assert(decimal_value(t) == value * 10 + d);
        }
        if value > (usize::MAX - d) / 10 {
            proof {
                let t = digits.take(i - start + 1);
                assert(value * 10 + d > usize::MAX) by (nonlinear_arith)
                    requires
                        value > (usize::MAX - d) / 10,
                        d <= 9,
                ;
                lemma_decimal_prefix_le(digits, i - start + 1);
                assert(decimal_value(digits) > usize::MAX);
            }
            return None;
        }
        proof {
            assert(value * 10 + d <= usize::MAX) by (nonlinear_arith)
                requires
                    value <= (usize::MAX - d) / 10,
                    d <= 9,
            ;
        }
        value = value * 10 + d;
        i += 1;
    }
    proof {
        assert(digits.take(i - start) == digits);
    }
    Some(value)
}

} // verus!

verus! {

/// Number of bytes of `s` in UTF-8.
pub open spec fn utf8_len(s: Seq<char>) -> nat {
    vstd::utf8::encode_utf8(s).len()
}

/// Number of bytes of `c` in UTF-8.
pub open spec fn char_utf8_len(c: char) -> nat {
    vstd::utf8::encode_scalar(c as u32).len()
}

pub proof fn lemma_utf8_len_push(s: Seq<char>, c: char)
    ensures
        utf8_len(s.push(c)) == utf8_len(s) + char_utf8_len(c),
    decreases s.len(),
{
    if s.len() == 0 {
        assert(s.push(c).drop_first() =~= Seq::<char>::empty());
        assert(vstd::utf8::encode_utf8(Seq::<char>::empty()) =~= Seq::<u8>::empty());
    } else {
        assert(s.push(c).drop_first() =~= s.drop_first().push(c));
        assert(s.push(c)[0] == s[0]);
        lemma_utf8_len_push(s.drop_first(), c);
    }
}

pub proof fn lemma_utf8_len_take_step(s: Seq<char>, k: int)
    requires
        0 <= k < s.len(),
    ensures
        utf8_len(s.take(k + 1)) == utf8_len(s.take(k)) + char_utf8_len(s[k]),
{
    assert(s.take(k + 1) == s.take(k).push(s[k]));
    lemma_utf8_len_push(s.take(k), s[k]);
}

pub proof fn lemma_utf8_len_take_mono(s: Seq<char>, j: int, k: int)
    requires
        0 <= j <= k <= s.len(),
    ensures
        utf8_len(s.take(j)) + (k - j) <= utf8_len(s.take(k)),
    decreases k - j,
{
    if j < k {
        lemma_utf8_len_take_mono(s, j, k - 1);
        lemma_utf8_len_take_step(s, k - 1);
    }
}

/// Number of bytes of `c` in UTF-8 (`char::len_utf8`).
pub fn char_width(c: char) -> (r: usize)
    ensures
        r == char_utf8_len(c),
        1 <= r <= 4,
{
    let v = c as u32;
    if v < 0x80 {
        1
    } else if v < 0x800 {
        2
    } else if v < 0x10000 {
        3
    } else {
        4
    }
}

/// The first line of `s` (`s.lines().next().unwrap_or("")`).
pub open spec fn first_line(s: Seq<char>) -> Seq<char> {
    if text_lines(s).len() > 0 { text_lines(s)[0] } else { Seq::empty() }
}

/// Appends the characters of `src` to `dst`.
/// Appends `src[from..to]` to `dst`.
pub fn push_range(dst: &mut Vec<char>, src: &[char], from: usize, to: usize)
    requires
        from <= to <= src@.len(),
    ensures
        final(dst)@ == old(dst)@ + src@.subrange(from as int, to as int),
{
    let mut i: usize = from;
    while i < to
        invariant
            from <= i <= to <= src@.len(),
            dst@ == old(dst)@ + src@.subrange(from as int, i as int),
        decreases to - i,
    {
        dst.push(src[i]);
        proof {
            assert(src@.subrange(from as int, i + 1) == src@.subrange(from as int, i as int).push(
                src@[i as int],
            ));
            assert(old(dst)@ + src@.subrange(from as int, i + 1) =~= (old(dst)@ + src@.subrange(
                from as int,
                i as int,
            )).push(src@[i as int]));
        }
        i += 1;
    }
}

pub fn push_all(dst: &mut Vec<char>, src: &[char])
    ensures
        final(dst)@ == old(dst)@ + src@,
{
    let mut i: usize = 0;
    while i < src.len()
        invariant
            0 <= i <= src@.len(),
            dst@ == old(dst)@ + src@.take(i as int),
        decreases src@.len() - i,
    {
        dst.push(src[i]);
        proof {
            assert(src@.take(i + 1) == src@.take(i as int).push(src@[i as int]));
            assert(old(dst)@ + src@.take(i + 1) =~= (old(dst)@ + src@.take(i as int)).push(src@[i as int]));
        }
        i += 1;
    }
    proof {
        assert(src@.take(src@.len() as int) == src@);
    }
}

} // verus!

verus! {

/// The lower-case form of `s` as `str::to_lowercase` maps it (Unicode lower-case mapping).
pub uninterp spec fn lowercase(s: Seq<char>) -> Seq<char>;

/// `str::to_lowercase`.
#[verifier::external_body]
pub(crate) fn to_lower(s: &str) -> (r: String)
    ensures
        r@ == lowercase(s@),
{
    s.to_lowercase()
}

} // verus!

verus! {

/// Whether `char::is_alphanumeric` holds of `c` (a Unicode letter or number).
pub uninterp spec fn is_alphanumeric(c: char) -> bool;

/// `char::is_alphanumeric`.
#[verifier::external_body]
pub(crate) fn alphanumeric(c: char) -> (r: bool)
    ensures
        r == is_alphanumeric(c),
{
    c.is_alphanumeric()
}

/// A character that belongs to a word: a letter, a digit or `_`.
pub open spec fn is_word_char(c: char) -> bool {
    is_alphanumeric(c) || c == '_'
}

/// Whether `c` belongs to a word.
pub fn word_char(c: char) -> (r: bool)
    ensures
        r == is_word_char(c),
{
    alphanumeric(c) || c == '_'
}

} // verus!

verus! {

/// The upper-case form of `s` as `str::to_uppercase` maps it (Unicode upper-case mapping).
pub uninterp spec fn uppercase(s: Seq<char>) -> Seq<char>;

/// `str::to_uppercase`.
#[verifier::external_body]
pub(crate) fn to_upper(s: &str) -> (r: String)
    ensures
        r@ == uppercase(s@),
{
    s.to_uppercase()
}

/// The characters `char::to_uppercase` maps `c` to.
pub uninterp spec fn char_uppercase(c: char) -> Seq<char>;

/// `char::to_uppercase`, collected into a string.
#[verifier::external_body]
pub(crate) fn char_to_upper(c: char) -> (r: String)
    ensures
        r@ == char_uppercase(c),
{
    c.to_uppercase().to_string()
}

/// The characters `char::to_lowercase` maps `c` to.
pub uninterp spec fn char_lowercase(c: char) -> Seq<char>;

/// `char::to_lowercase`, collected into a string.
#[verifier::external_body]
pub(crate) fn char_to_lower(c: char) -> (r: String)
    ensures
        r@ == char_lowercase(c),
{
    c.to_lowercase().to_string()
}

} // verus!
