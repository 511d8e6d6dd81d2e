//! Trusted view of the text buffer.
//!
//! The buffer is a `ropey::Rope`.  Its contents are named by the
//! uninterpreted `rope_text`; each operation the engine needs is wrapped in
//! one function whose contract states, over `rope_text` and the line model
//! of [`crate::text`], what ropey's documentation promises.  The rope is
//! built without ropey's optional line-break features, so the only line
//! break it recognizes inside a `char` sequence is `'\n'` — exactly the
//! terminator of the line model.

use vstd::prelude::*;

use crate::text::{erase_range, line_count, line_start};

verus! {

#[verifier::external_type_specification]
#[verifier::external_body]
pub struct ExRope(ropey::Rope);

/// The characters the rope holds, in order.
pub uninterp spec fn rope_text(rope: ropey::Rope) -> Seq<char>;

/// Relies on ropey::Rope::len_chars: the total number of chars in the rope.
#[verifier::external_body]
pub(crate) fn rope_len_chars(r: &ropey::Rope) -> (n: usize)
    ensures
        n == rope_text(*r).len(),
{
    r.len_chars()
}

/// Relies on ropey::Rope::len_lines: one more than the number of line
/// breaks, which — with ropey's Unicode line-break features switched off —
/// lie exactly at each '\n'.
#[verifier::external_body]
pub(crate) fn rope_len_lines(r: &ropey::Rope) -> (n: usize)
    ensures
        n == line_count(rope_text(*r)),
{
    r.len_lines()
}

/// Relies on ropey::Rope::line_to_char: the char offset at which the given
/// line starts.
#[verifier::external_body]
pub(crate) fn rope_line_to_char(r: &ropey::Rope, row: usize) -> (i: usize)
    requires
        row < line_count(rope_text(*r)),
    ensures
        i == line_start(rope_text(*r), row as int),
{
    r.line_to_char(row)
}

/// Relies on ropey::Rope::insert_char: inserts one character at a char
/// offset, shifting what follows.
#[verifier::external_body]
pub(crate) fn rope_insert_char(r: &mut ropey::Rope, i: usize, ch: char)
    requires
        i <= rope_text(*old(r)).len(),
    ensures
        rope_text(*final(r)) == rope_text(*old(r)).insert(i as int, ch),
{
    r.insert_char(i, ch)
}

/// Relies on ropey::Rope::remove: removes the characters of the half-open
/// char range `[a, b)`.
#[verifier::external_body]
pub(crate) fn rope_remove(r: &mut ropey::Rope, a: usize, b: usize)
    requires
        a <= b <= rope_text(*old(r)).len(),
    ensures
        rope_text(*final(r)) == erase_range(rope_text(*old(r)), a as int, b as int),
{
    r.remove(a..b)
}

} // verus!
