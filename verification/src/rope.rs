//! The calls this crate makes into `ropey::Rope`, each stated over the text the rope holds.

use vstd::prelude::*;
use crate::lines::{line_of, line_start, line_text, num_lines};

verus! {

/// A rope of text.
#[verifier::external_type_specification]
#[verifier::external_body]
pub struct ExRope(ropey::Rope);

/// The characters a rope holds, in order.
pub uninterp spec fn rope_text(r: ropey::Rope) -> Seq<char>;

/// `Rope::new`: an empty rope.
#[verifier::external_body]
pub(crate) fn rope_new() -> (r: ropey::Rope)
    ensures
        rope_text(r) == Seq::<char>::empty(),
{
    ropey::Rope::new()
}

/// `Rope::from_str`: a rope holding `s`.
#[verifier::external_body]
pub(crate) fn rope_from_str(s: &str) -> (r: ropey::Rope)
    ensures
        rope_text(r) == s@,
{
    ropey::Rope::from_str(s)
}

/// `Rope::len_chars`: number of characters.
#[verifier::external_body]
pub(crate) fn rope_len_chars(r: &ropey::Rope) -> (n: usize)
    ensures
        n == rope_text(*r).len(),
{
    r.len_chars()
}

/// `Rope::len_lines`: number of lines (line breaks plus one).
#[verifier::external_body]
pub(crate) fn rope_len_lines(r: &ropey::Rope) -> (n: usize)
    ensures
        n == num_lines(rope_text(*r)),
{
    r.len_lines()
}

/// `Rope::line_to_char`: where line `line` starts (the end of the text for one past the
/// last line). Panics past that, so that is excluded.
#[verifier::external_body]
pub(crate) fn rope_line_to_char(r: &ropey::Rope, line: usize) -> (i: usize)
    requires
        line <= num_lines(rope_text(*r)),
    ensures
        i == line_start(rope_text(*r), line as int),
{
    r.line_to_char(line)
}

/// `Rope::char_to_line`: the line holding character position `idx` (`idx` may be the end of
/// the text). Panics past the end, so that is excluded.
#[verifier::external_body]
pub(crate) fn rope_char_to_line(r: &ropey::Rope, idx: usize) -> (line: usize)
    requires
        idx <= rope_text(*r).len(),
    ensures
        line == line_of(rope_text(*r), idx as int),
{
    r.char_to_line(idx)
}

/// `Rope::get_char`: the character at `idx`, if there is one.
#[verifier::external_body]
pub(crate) fn rope_get_char(r: &ropey::Rope, idx: usize) -> (c: Option<char>)
    ensures
        idx < rope_text(*r).len() ==> c == Some(rope_text(*r)[idx as int]),
        idx >= rope_text(*r).len() ==> c is None,
{
    r.get_char(idx)
}

/// `Rope::insert`: inserts `s` before position `idx`. Panics past the end, so that is
/// excluded.
#[verifier::external_body]
pub(crate) fn rope_insert(r: &mut ropey::Rope, idx: usize, s: &str)
    requires
        idx <= rope_text(*old(r)).len(),
    ensures
        rope_text(*final(r)) == rope_text(*old(r)).take(idx as int) + s@ + rope_text(*old(r)).skip(
            idx as int,
        ),
{
    r.insert(idx, s)
}

/// `Rope::insert_char`: inserts `c` before position `idx`. Panics past the end, so that is
/// excluded.
#[verifier::external_body]
pub(crate) fn rope_insert_char(r: &mut ropey::Rope, idx: usize, c: char)
    requires
        idx <= rope_text(*old(r)).len(),
    ensures
        rope_text(*final(r)) == rope_text(*old(r)).insert(idx as int, c),
{
    r.insert_char(idx, c)
}

/// `Rope::remove`: removes the characters in `start..end`. Panics on a reversed or
/// out-of-bounds range, so those are excluded.
#[verifier::external_body]
pub(crate) fn rope_remove(r: &mut ropey::Rope, start: usize, end: usize)
    requires
        start <= end <= rope_text(*old(r)).len(),
    ensures
        rope_text(*final(r)) == rope_text(*old(r)).take(start as int) + rope_text(*old(r)).skip(
            end as int,
        ),
{
    r.remove(start..end)
}

/// The whole text of the rope as a string (`Rope`'s `Display`).
#[verifier::external_body]
pub(crate) fn rope_to_string(r: &ropey::Rope) -> (s: String)
    ensures
        s@ == rope_text(*r),
{
    r.to_string()
}

/// `Rope::line`, as a string: line `line` with its line break. Panics past the last line,
/// so that is excluded.
#[verifier::external_body]
pub(crate) fn rope_line_string(r: &ropey::Rope, line: usize) -> (s: String)
    requires
        line < num_lines(rope_text(*r)),
    ensures
        s@ == line_text(rope_text(*r), line as int),
{
    r.line(line).to_string()
}

/// `Rope::line(line).len_chars()`: the length of line `line`, its line break included.
/// `Rope::line` panics past the last line, so that is excluded.
#[verifier::external_body]
pub(crate) fn rope_line_len_chars(r: &ropey::Rope, line: usize) -> (n: usize)
    requires
        line < num_lines(rope_text(*r)),
    ensures
        n == line_text(rope_text(*r), line as int).len(),
{
    r.line(line).len_chars()
}

/// `Rope::line(line).char(i)`: character `i` of line `line`. Both calls panic out of
/// bounds, so those inputs are excluded.
#[verifier::external_body]
pub(crate) fn rope_line_char(r: &ropey::Rope, line: usize, i: usize) -> (c: char)
    requires
        line < num_lines(rope_text(*r)),
        i < line_text(rope_text(*r), line as int).len(),
    ensures
        c == line_text(rope_text(*r), line as int)[i as int],
{
    r.line(line).char(i)
}

/// `Rope::clone`: a rope with the same text.
#[verifier::external_body]
pub(crate) fn rope_clone(r: &ropey::Rope) -> (c: ropey::Rope)
    ensures
        rope_text(c) == rope_text(*r),
{
    r.clone()
}

} // verus!
