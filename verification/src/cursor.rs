//! Positions and single cursors.
//!
//! A `Pos` is a logical row/column location.  The row is always meant to be
//! a valid line index; the column may be "virtual" — larger than the line —
//! and is clamped ("realized") to the line length whenever an absolute
//! character offset is needed.  A `Cursor` is a caret (`start`) with an
//! optional selection anchor (`end`); it applies one edit event to the
//! buffer and reports how the event shifted character and line counts.

use vstd::prelude::*;

use crate::buffer::{
    rope_insert_char, rope_len_chars, rope_len_lines, rope_line_to_char, rope_remove, rope_text,
};
use crate::text::{
    col_of, erase_range, lemma_compose, lemma_decompose, lemma_erase_between,
    lemma_insert_in_line, lemma_line_end, lemma_line_start, line_count, line_len, line_start,
    newlines_before, row_of,
};

verus! {

/// A row/column location in the buffer.  The column may exceed the length
/// of the line it sits on; see [`Pos::col`].
#[derive(Debug, Clone, Copy, PartialEq, Eq, Structural)]
pub struct Pos {
    pub col: usize,
    pub row: usize,
}

/// The row is a valid line index of the buffer.
pub open spec fn pos_valid(s: Seq<char>, p: Pos) -> bool {
    p.row < line_count(s)
}

/// The stored column clamped to the line: what the position means when an
/// absolute offset is taken.
pub open spec fn realized_col(s: Seq<char>, p: Pos) -> int {
    if p.col <= line_len(s, p.row as int) {
        p.col as int
    } else {
        line_len(s, p.row as int)
    }
}

/// The absolute character offset of a position.
pub open spec fn abs_of(s: Seq<char>, p: Pos) -> int {
    line_start(s, p.row as int) + realized_col(s, p)
}

/// Row-major order on positions, by the stored fields.
pub open spec fn pos_le(a: Pos, b: Pos) -> bool {
    a.row < b.row || (a.row == b.row && a.col <= b.col)
}

/// The position with its column realized.
pub open spec fn spec_realize(s: Seq<char>, p: Pos) -> Pos {
    Pos { col: realized_col(s, p) as usize, row: p.row }
}

/// What a row move does: a clamped shift that leaves the column alone and
/// is ignored entirely when the target row is out of range.
pub open spec fn spec_move_row(s: Seq<char>, p: Pos, change: int) -> Pos {
    if 0 <= p.row + change < line_count(s) {
        Pos { col: p.col, row: (p.row + change) as usize }
    } else {
        p
    }
}

/// What a column move does: the column is realized, and the position then
/// travels `change` character offsets, wrapping across line boundaries; a
/// move past either end of the buffer is ignored (the realization stays).
pub open spec fn spec_move_col(s: Seq<char>, p: Pos, change: int) -> Pos {
    let target = abs_of(s, p) + change;
    if 0 <= target <= s.len() {
        Pos { col: col_of(s, target) as usize, row: row_of(s, target) as usize }
    } else {
        spec_realize(s, p)
    }
}

impl Pos {
    pub fn new(col: usize, row: usize) -> (p: Pos)
        ensures
            p.col == col,
            p.row == row,
    {
        Pos { row, col }
    }

    /// Row-major comparison by the stored fields.
    pub(crate) fn le(&self, other: &Pos) -> (r: bool)
        ensures
            r == pos_le(*self, *other),
    {
        self.row < other.row || (self.row == other.row && self.col <= other.col)
    }

    pub fn row(&self) -> (r: usize)
        ensures
            r == self.row,
    {
        self.row
    }

    /// Length of the line this position sits on, excluding its terminator.
    pub fn len_line(&self, rope: &ropey::Rope) -> (n: usize)
        requires
            pos_valid(rope_text(*rope), *self),
        ensures
            n == line_len(rope_text(*rope), self.row as int),
    {
        proof {
            lemma_line_end(rope_text(*rope), self.row as int);
            if (self.row as int) < line_count(rope_text(*rope)) - 1 {
                lemma_line_start(rope_text(*rope), self.row as int + 1);
            }
        }
        let start = rope_line_to_char(rope, self.row);
        let lines = rope_len_lines(rope);
        if self.row + 1 < lines {
            let next = rope_line_to_char(rope, self.row + 1);
            next - 1 - start
        } else {
            let total = rope_len_chars(rope);
            total - start
        }
    }

    /// The realized column: the stored column, clamped to the line length.
    pub fn col(&self, rope: &ropey::Rope) -> (c: usize)
        requires
            pos_valid(rope_text(*rope), *self),
        ensures
            c == realized_col(rope_text(*rope), *self),
    {
        let ll = self.len_line(rope);
        if self.col <= ll {
            self.col
        } else {
            ll
        }
    }

    /// Clamp the stored column to the line length.  One-directional: the
    /// pre-clamp value is forgotten.
    pub(crate) fn realize_col(&mut self, rope: &ropey::Rope)
        requires
            pos_valid(rope_text(*rope), *old(self)),
        ensures
            *final(self) == spec_realize(rope_text(*rope), *old(self)),
    {
        self.col = self.col(rope);
    }

    /// The absolute character offset: the line's start plus the realized
    /// column.
    pub fn idx(&self, rope: &ropey::Rope) -> (i: usize)
        requires
            pos_valid(rope_text(*rope), *self),
        ensures
            i == abs_of(rope_text(*rope), *self),
            i <= rope_text(*rope).len(),
    {
        proof {
            lemma_line_end(rope_text(*rope), self.row as int);
        }
        let _total = rope_len_chars(rope);
        let start = rope_line_to_char(rope, self.row);
        let c = self.col(rope);
        start + c
    }

    /// Shift the row by `change`, clamped: out-of-range targets are ignored.
    pub fn move_row(&mut self, change: i128, rope: &ropey::Rope)
        ensures
            *final(self) == spec_move_row(rope_text(*rope), *old(self), change as int),
    {
        let lines = rope_len_lines(rope);
        let row128 = self.row as i128;
        if change <= i128::MAX - row128 {
            let target = row128 + change;
            if 0 <= target && target < lines as i128 {
                self.row = target as usize;
            }
        }
    }

    /// Shift the stored column without realizing it against any line: used
    /// to propagate a same-row character shift from an earlier cursor.  The
    /// result saturates at the bounds of `usize`.
    pub fn move_col_raw(&mut self, change: i128)
        ensures
            final(self).row == old(self).row,
            final(self).col as int == clamp_col(old(self).col + change),
    {
        let col128 = self.col as i128;
        if change >= 0 {
            if change > i128::MAX - col128 {
                self.col = usize::MAX;
            } else {
                let t = col128 + change;
                if t > usize::MAX as i128 {
                    self.col = usize::MAX;
                } else {
                    self.col = t as usize;
                }
            }
        } else {
            let t = col128 + change;
            if t < 0 {
                self.col = 0;
            } else {
                self.col = t as usize;
            }
        }
    }

    /// Realize the column, then travel `change` character offsets, wrapping
    /// across line boundaries; a move past either end of the buffer is
    /// ignored.
    pub fn move_col(&mut self, change: i128, rope: &ropey::Rope)
        requires
            pos_valid(rope_text(*rope), *old(self)),
        ensures
            *final(self) == spec_move_col(rope_text(*rope), *old(self), change as int),
            pos_valid(rope_text(*rope), *final(self)),
            final(self).col <= line_len(rope_text(*rope), final(self).row as int),
    {
        let ghost s = rope_text(*rope);
        self.realize_col(rope);
        let i = self.idx(rope);
        let total = rope_len_chars(rope);
        proof {
            lemma_line_end(s, self.row as int);
        }
        if change >= 0 {
            if change <= (total - i) as i128 {
                self.seek_offset(i + (change as usize), rope);
            }
        } else {
            if change >= -(i as i128) {
                self.seek_offset(i - ((-change) as usize), rope);
            }
        }
    }

    /// Walk to the row/column decomposition of an absolute offset.
    fn seek_offset(&mut self, target: usize, rope: &ropey::Rope)
        requires
            pos_valid(rope_text(*rope), *old(self)),
            target <= rope_text(*rope).len(),
        ensures
            final(self).row == row_of(rope_text(*rope), target as int),
            final(self).col == col_of(rope_text(*rope), target as int),
            pos_valid(rope_text(*rope), *final(self)),
            final(self).col <= line_len(rope_text(*rope), final(self).row as int),
    {
        let ghost s = rope_text(*rope);
        let mut ls = rope_line_to_char(rope, self.row);
        while ls > target
            invariant
                pos_valid(s, *self),
                s == rope_text(*rope),
                target <= s.len(),
                ls == line_start(s, self.row as int),
            decreases self.row,
        {
            proof {
                lemma_line_start(s, self.row as int);
                if self.row == 0 {
                    assert(line_start(s, 0) == 0);
                }
            }
            self.row = self.row - 1;
            ls = rope_line_to_char(rope, self.row);
        }
        let lines = rope_len_lines(rope);
        loop
            invariant_except_break
                pos_valid(s, *self),
                s == rope_text(*rope),
                target <= s.len(),
                lines == line_count(s),
                ls == line_start(s, self.row as int),
                ls <= target,
            ensures
                pos_valid(s, *self),
                ls == line_start(s, self.row as int),
                ls <= target,
                self.row as int + 1 < line_count(s) ==> line_start(s, self.row as int + 1)
                    > target,
            decreases lines - self.row,
        {
            if self.row + 1 >= lines {
                break ;
            }
            let next = rope_line_to_char(rope, self.row + 1);
            if next > target {
                break ;
            }
            self.row = self.row + 1;
            ls = next;
        }
        proof {
            lemma_line_end(s, self.row as int);
            assert(target - ls <= line_len(s, self.row as int));
            lemma_compose(s, self.row as int, target - ls);
        }
        self.col = target - ls;
    }

    pub fn up(&mut self, rope: &ropey::Rope)
        ensures
            *final(self) == spec_move_row(rope_text(*rope), *old(self), -1),
    {
        self.move_row(-1, rope);
    }

    pub fn down(&mut self, rope: &ropey::Rope)
        ensures
            *final(self) == spec_move_row(rope_text(*rope), *old(self), 1),
    {
        self.move_row(1, rope);
    }

    pub fn left(&mut self, rope: &ropey::Rope)
        requires
            pos_valid(rope_text(*rope), *old(self)),
        ensures
            *final(self) == spec_move_col(rope_text(*rope), *old(self), -1),
            pos_valid(rope_text(*rope), *final(self)),
    {
        self.move_col(-1, rope);
    }

    pub fn right(&mut self, rope: &ropey::Rope)
        requires
            pos_valid(rope_text(*rope), *old(self)),
        ensures
            *final(self) == spec_move_col(rope_text(*rope), *old(self), 1),
            pos_valid(rope_text(*rope), *final(self)),
    {
        self.move_col(1, rope);
    }
}

/// A signed value clamped into the `usize` range.
pub open spec fn clamp_col(x: int) -> int {
    if x < 0 {
        0
    } else if x > usize::MAX as int {
        usize::MAX as int
    } else {
        x
    }
}

/// The logical key of one input event.
#[derive(Debug, Clone, Copy, PartialEq, Eq)]
pub enum Key {
    Up,
    Down,
    Left,
    Right,
    Home,
    End,
    Backspace,
    Enter,
    Tab,
    /// A printable character.
    Char(char),
    /// Anything the engine does not handle.
    Other,
}

/// One keyboard input event.
#[derive(Debug, Clone, Copy, PartialEq, Eq)]
pub struct KeyEvent {
    pub key: Key,
    pub shift: bool,
    pub alt: bool,
}

/// A caret movement, dispatched to the matching `Pos` operation.
#[derive(Debug, Clone, Copy, PartialEq, Eq)]
pub enum Motion {
    Up,
    Down,
    Left,
    Right,
    Home,
    End,
}

/// What a motion does to a position.
pub open spec fn spec_apply_motion(s: Seq<char>, p: Pos, m: Motion) -> Pos {
    match m {
        Motion::Up => spec_move_row(s, p, -1),
        Motion::Down => spec_move_row(s, p, 1),
        Motion::Left => spec_move_col(s, p, -1),
        Motion::Right => spec_move_col(s, p, 1),
        Motion::Home => Pos { col: 0, row: p.row },
        Motion::End => Pos { col: line_len(s, p.row as int) as usize, row: p.row },
    }
}

/// A caret with an optional selection anchor.
#[derive(Debug, Clone, Copy, PartialEq, Eq)]
pub struct Cursor {
    pub start: Pos,
    pub end: Option<Pos>,
}

/// Every position the cursor holds has a valid row.
pub open spec fn cursor_valid(s: Seq<char>, c: Cursor) -> bool {
    &&& pos_valid(s, c.start)
    &&& match c.end {
        Some(e) => pos_valid(s, e),
        None => true,
    }
}

/// The earlier endpoint of the cursor, in row-major order of the stored
/// fields.
pub open spec fn cursor_first(c: Cursor) -> Pos {
    match c.end {
        Some(e) => if pos_le(e, c.start) {
            e
        } else {
            c.start
        },
        None => c.start,
    }
}

/// The later endpoint of the cursor.
pub open spec fn cursor_last(c: Cursor) -> Pos {
    match c.end {
        Some(e) => if pos_le(e, c.start) {
            c.start
        } else {
            e
        },
        None => c.start,
    }
}

/// The endpoint a shifted motion extends: the anchor if there is one, else
/// the caret.
pub open spec fn sel_base(c: Cursor) -> Pos {
    match c.end {
        Some(e) => e,
        None => c.start,
    }
}

/// The cursor as an edit event first sees it: caret column realized.
pub open spec fn with_realized_start(s: Seq<char>, c: Cursor) -> Cursor {
    Cursor { start: spec_realize(s, c.start), end: c.end }
}

/// The text once the cursor's selected range is removed.
pub open spec fn sel_erased(s: Seq<char>, c: Cursor) -> Seq<char> {
    erase_range(s, abs_of(s, cursor_first(c)), abs_of(s, cursor_last(c)))
}

/// Character-count shift a selection removal causes on its final row.
pub open spec fn sel_dc(c: Cursor) -> int {
    let f = cursor_first(c);
    let l = cursor_last(c);
    if f.row != l.row {
        -(l.col as int)
    } else {
        f.col - l.col
    }
}

/// Line-count shift a selection removal causes.
pub open spec fn sel_dr(c: Cursor) -> int {
    cursor_first(c).row - cursor_last(c).row
}

impl Pos {
    /// Apply one motion to this position.
    pub(crate) fn apply_motion(&mut self, m: Motion, rope: &ropey::Rope)
        requires
            pos_valid(rope_text(*rope), *old(self)),
        ensures
            *final(self) == spec_apply_motion(rope_text(*rope), *old(self), m),
            pos_valid(rope_text(*rope), *final(self)),
    {
        match m {
            Motion::Up => self.up(rope),
            Motion::Down => self.down(rope),
            Motion::Left => self.left(rope),
            Motion::Right => self.right(rope),
            Motion::Home => self.col = 0,
            Motion::End => self.col = self.len_line(rope),
        }
    }
}

impl Cursor {
    /// A bare caret.
    pub fn from_start(pos: Pos) -> (c: Cursor)
        ensures
            c.start == pos,
            c.end is None,
    {
        Cursor { start: pos, end: None }
    }

    /// A caret with a selection anchor.
    pub fn new(start: Pos, end: Pos) -> (c: Cursor)
        ensures
            c.start == start,
            c.end == Some(end),
    {
        Cursor { start, end: Some(end) }
    }

    /// The earlier endpoint, by row-major order of the stored fields.
    pub fn first(&self) -> (p: Pos)
        ensures
            p == cursor_first(*self),
    {
        match &self.end {
            Some(e) => if e.le(&self.start) {
                *e
            } else {
                self.start
            },
            None => self.start,
        }
    }

    /// The later endpoint.
    pub fn last(&self) -> (p: Pos)
        ensures
            p == cursor_last(*self),
    {
        match &self.end {
            Some(e) => if e.le(&self.start) {
                self.start
            } else {
                *e
            },
            None => self.start,
        }
    }

    /// Apply a motion to the selection anchor, creating it from the caret
    /// if absent; the caret itself stays put.
    pub fn with_end(&mut self, m: Motion, rope: &ropey::Rope)
        requires
            cursor_valid(rope_text(*rope), *old(self)),
        ensures
            final(self).start == old(self).start,
            final(self).end == Some(
                spec_apply_motion(rope_text(*rope), sel_base(*old(self)), m),
            ),
            cursor_valid(rope_text(*rope), *final(self)),
    {
        let mut p = match &self.end {
            Some(e) => *e,
            None => self.start,
        };
        p.apply_motion(m, rope);
        self.end = Some(p);
    }

    /// Move either the caret (plain motion) or the selection anchor
    /// (shifted motion).
    pub fn move_cursor(&mut self, m: Motion, shift: bool, rope: &ropey::Rope)
        requires
            cursor_valid(rope_text(*rope), *old(self)),
        ensures
            shift ==> final(self).start == old(self).start && final(self).end == Some(
                spec_apply_motion(rope_text(*rope), sel_base(*old(self)), m),
            ),
            !shift ==> final(self).end == old(self).end && final(self).start
                == spec_apply_motion(rope_text(*rope), old(self).start, m),
            cursor_valid(rope_text(*rope), *final(self)),
    {
        if shift {
            self.with_end(m, rope);
        } else {
            self.start.apply_motion(m, rope);
        }
    }

    /// Remove the selected character range from the buffer; the caret lands
    /// on the selection's earlier endpoint.  A degenerate selection removes
    /// nothing.  Returns the (column, row) shift the removal causes at the
    /// cursor's row and below.
    pub(crate) fn delete_selection(&mut self, rope: &mut ropey::Rope) -> (d: (i128, i128))
        requires
            cursor_valid(rope_text(*old(rope)), *old(self)),
        ensures
            ({
                let s = rope_text(*old(rope));
                let t = rope_text(*final(rope));
                let f = cursor_first(*old(self));
                let l = cursor_last(*old(self));
                &&& t == sel_erased(s, *old(self))
                &&& final(self).start == f
                &&& final(self).end is None
                &&& d.0 == sel_dc(*old(self))
                &&& d.1 == sel_dr(*old(self))
                &&& line_count(t) == line_count(s) + d.1
                &&& pos_valid(t, f)
                &&& line_start(t, f.row as int) == line_start(s, f.row as int)
                &&& line_len(t, f.row as int) == realized_col(s, f) + line_len(s, l.row as int)
                    - realized_col(s, l)
            }),
    {
        let ghost s = rope_text(*rope);
        let first = self.first();
        let last = self.last();
        let a = first.idx(rope);
        let b = last.idx(rope);
        proof {
            lemma_line_end(s, first.row as int);
            lemma_line_end(s, last.row as int);
            lemma_erase_between(
                s,
                first.row as int,
                realized_col(s, first),
                last.row as int,
                realized_col(s, last),
            );
        }
        rope_remove(rope, a, b);
        let dr = first.row as i128 - last.row as i128;
        let dc = if dr != 0 {
            -(last.col as i128)
        } else {
            first.col as i128 - last.col as i128
        };
        self.start = first;
        self.end = None;
        (dc, dr)
    }

    /// Delete any selection, then insert `ch` at the caret and step right.
    fn type_char(&mut self, ch: char, rope: &mut ropey::Rope) -> (d: (i128, i128))
        requires
            cursor_valid(rope_text(*old(rope)), *old(self)),
            ch != '\n',
        ensures
            ({
                let s = rope_text(*old(rope));
                let c2 = with_realized_start(s, *old(self));
                let t1 = sel_erased(s, c2);
                let f = cursor_first(c2);
                let t2 = t1.insert(abs_of(t1, f), ch);
                &&& rope_text(*final(rope)) == t2
                &&& final(self).start == spec_move_col(t2, f, 1)
                &&& final(self).end is None
                &&& d.0 == sel_dc(c2) + 1
                &&& d.1 == sel_dr(c2)
                &&& cursor_valid(t2, *final(self))
                &&& line_count(t2) == line_count(s) + d.1
            }),
    {
        self.start.realize_col(rope);
        let (dc, dr) = self.delete_selection(rope);
        let ghost t1 = rope_text(*rope);
        let ghost f = self.start;
        let i2 = self.start.idx(rope);
        rope_insert_char(rope, i2, ch);
        proof {
            lemma_line_end(t1, f.row as int);
            lemma_insert_in_line(t1, f.row as int, realized_col(t1, f), ch);
        }
        self.start.right(rope);
        (dc + 1, dr)
    }

    /// Apply one input event to this cursor, mutating the buffer.  Returns
    /// the signed (column, row) shift the edit causes at the cursor's row
    /// and below, for propagation to the cursors after it.
    pub fn handle_input(&mut self, data: &KeyEvent, rope: &mut ropey::Rope) -> (d: (i128, i128))
        requires
            cursor_valid(rope_text(*old(rope)), *old(self)),
            match data.key {
                Key::Char(ch) => ch != '\n',
                _ => true,
            },
        ensures
            cursor_valid(rope_text(*final(rope)), *final(self)),
            line_count(rope_text(*final(rope))) == line_count(rope_text(*old(rope))) + d.1,
            ({
                let s = rope_text(*old(rope));
                let t = rope_text(*final(rope));
                let c0 = *old(self);
                let c1 = *final(self);
                match data.key {
                    Key::Up => arrow_case(s, t, c0, c1, d, data.shift, Motion::Up),
                    Key::Down => arrow_case(s, t, c0, c1, d, data.shift, Motion::Down),
                    Key::Left => arrow_case(s, t, c0, c1, d, data.shift, Motion::Left),
                    Key::Right => arrow_case(s, t, c0, c1, d, data.shift, Motion::Right),
                    Key::Home => endpoint_case(s, t, c0, c1, d, data.shift, Motion::Home),
                    Key::End => endpoint_case(s, t, c0, c1, d, data.shift, Motion::End),
                    Key::Backspace => backspace_case(s, t, c0, c1, d),
                    Key::Enter => enter_case(s, t, c0, c1, d),
                    Key::Tab => insert_case(s, t, c0, c1, d, '\t'),
                    Key::Char(ch) => insert_case(s, t, c0, c1, d, ch),
                    Key::Other => t == s && c1 == c0 && d.0 == 0 && d.1 == 0,
                }
            }),
    {
        let ghost s = rope_text(*rope);
        match data.key {
            Key::Up => {
                self.move_cursor(Motion::Up, data.shift, rope);
                if !data.shift {
                    self.end = None;
                }
                (0, 0)
            },
            Key::Down => {
                self.move_cursor(Motion::Down, data.shift, rope);
                if !data.shift {
                    self.end = None;
                }
                (0, 0)
            },
            Key::Left => {
                self.move_cursor(Motion::Left, data.shift, rope);
                if !data.shift {
                    self.end = None;
                }
                (0, 0)
            },
            Key::Right => {
                self.move_cursor(Motion::Right, data.shift, rope);
                if !data.shift {
                    self.end = None;
                }
                (0, 0)
            },
            Key::Home => {
                self.move_cursor(Motion::Home, data.shift, rope);
                (0, 0)
            },
            Key::End => {
                self.move_cursor(Motion::End, data.shift, rope);
                (0, 0)
            },
            Key::Backspace => {
                self.start.realize_col(rope);
                let start_idx = self.start.idx(rope);
                if self.end.is_some() {
                    self.delete_selection(rope)
                } else if start_idx > 0 {
                    let old_row = self.start.row;
                    let ghost rc = self.start.col as int;
                    self.start.left(rope);
                    proof {
                        lemma_line_end(s, old_row as int);
                        lemma_compose(s, old_row as int, rc);
                        lemma_decompose(s, start_idx - 1);
                        lemma_erase_between(
                            s,
                            self.start.row as int,
                            self.start.col as int,
                            old_row as int,
                            rc,
                        );
                        lemma_compose(
                            erase_range(s, start_idx - 1, start_idx as int),
                            self.start.row as int,
                            self.start.col as int,
                        );
                    }
                    rope_remove(rope, start_idx - 1, start_idx);
                    if old_row == self.start.row {
                        (-1, 0)
                    } else {
                        (0, -1)
                    }
                } else {
                    (0, 0)
                }
            },
            Key::Enter => {
                self.start.realize_col(rope);
                let (dc, dr) = self.delete_selection(rope);
                let ghost t1 = rope_text(*rope);
                let ghost f = self.start;
                let old_col = self.start.col(rope);
                let i2 = self.start.idx(rope);
                rope_insert_char(rope, i2, '\n');
                proof {
                    lemma_insert_in_line(t1, f.row as int, realized_col(t1, f), '\n');
                }
                self.start.col = 0;
                self.start.down(rope);
                (dc - old_col as i128, dr + 1)
            },
            Key::Tab => self.type_char('\t', rope),
            Key::Char(ch) => self.type_char(ch, rope),
            Key::Other => (0, 0),
        }
    }
}

/// Contract of a plain or shifted arrow event: the buffer is untouched; the
/// caret (or, shifted, the anchor) moves, and a plain arrow drops the
/// anchor.
pub open spec fn arrow_case(
    s: Seq<char>,
    t: Seq<char>,
    c0: Cursor,
    c1: Cursor,
    d: (i128, i128),
    shift: bool,
    m: Motion,
) -> bool {
    &&& t == s
    &&& d.0 == 0 && d.1 == 0
    &&& if shift {
        c1.start == c0.start && c1.end == Some(spec_apply_motion(s, sel_base(c0), m))
    } else {
        c1.end is None && c1.start == spec_apply_motion(s, c0.start, m)
    }
}

/// Contract of a Home or End event: as an arrow, but a plain press keeps
/// the anchor.
pub open spec fn endpoint_case(
    s: Seq<char>,
    t: Seq<char>,
    c0: Cursor,
    c1: Cursor,
    d: (i128, i128),
    shift: bool,
    m: Motion,
) -> bool {
    &&& t == s
    &&& d.0 == 0 && d.1 == 0
    &&& if shift {
        c1.start == c0.start && c1.end == Some(spec_apply_motion(s, sel_base(c0), m))
    } else {
        c1.end == c0.end && c1.start == spec_apply_motion(s, c0.start, m)
    }
}

/// Contract of a backspace event: a selection is removed as a whole; a bare
/// caret removes the one character before it, joining lines across a
/// terminator; at the buffer start nothing happens.
pub open spec fn backspace_case(
    s: Seq<char>,
    t: Seq<char>,
    c0: Cursor,
    c1: Cursor,
    d: (i128, i128),
) -> bool {
    let c2 = with_realized_start(s, c0);
    match c0.end {
        Some(_) => {
            &&& t == sel_erased(s, c2)
            &&& c1.start == cursor_first(c2)
            &&& c1.end is None
            &&& d.0 == sel_dc(c2)
            &&& d.1 == sel_dr(c2)
        },
        None => {
            let i = abs_of(s, c0.start);
            if i > 0 {
                &&& t == erase_range(s, i - 1, i)
                &&& c1.start.row == row_of(t, i - 1)
                &&& c1.start.col == col_of(t, i - 1)
                &&& c1.end is None
                &&& if s[i - 1] == '\n' {
                    d.0 == 0 && d.1 == -1
                } else {
                    d.0 == -1 && d.1 == 0
                }
            } else {
                t == s && c1 == c2 && d.0 == 0 && d.1 == 0
            }
        },
    }
}

/// Contract of an Enter event: any selection is removed, a terminator goes
/// in at the caret, and the caret lands at column 0 of the next row.
pub open spec fn enter_case(
    s: Seq<char>,
    t: Seq<char>,
    c0: Cursor,
    c1: Cursor,
    d: (i128, i128),
) -> bool {
    let c2 = with_realized_start(s, c0);
    let t1 = sel_erased(s, c2);
    let f = cursor_first(c2);
    let t2 = t1.insert(abs_of(t1, f), '\n');
    &&& t == t2
    &&& c1.start == (Pos { col: 0, row: (f.row + 1) as usize })
    &&& c1.end is None
    &&& d.0 == sel_dc(c2) - realized_col(t1, f)
    &&& d.1 == sel_dr(c2) + 1
}

/// Contract of typing one character (or Tab): any selection is removed, the
/// character goes in at the caret, and the caret steps right over it.
pub open spec fn insert_case(
    s: Seq<char>,
    t: Seq<char>,
    c0: Cursor,
    c1: Cursor,
    d: (i128, i128),
    ch: char,
) -> bool {
    let c2 = with_realized_start(s, c0);
    let t1 = sel_erased(s, c2);
    let f = cursor_first(c2);
    let t2 = t1.insert(abs_of(t1, f), ch);
    &&& t == t2
    &&& c1.start == spec_move_col(t2, f, 1)
    &&& c1.end is None
    &&& d.0 == sel_dc(c2) + 1
    &&& d.1 == sel_dr(c2)
}

/// The outcome of one motion key: the buffer untouched, the caret or the
/// anchor moved, and — for a plain arrow — the anchor dropped.
pub open spec fn spec_motion_step(
    s: Seq<char>,
    c0: Cursor,
    shift: bool,
    m: Motion,
    clear: bool,
) -> (Seq<char>, Cursor, int, int) {
    let c1 = if shift {
        Cursor { start: c0.start, end: Some(spec_apply_motion(s, sel_base(c0), m)) }
    } else if clear {
        Cursor { start: spec_apply_motion(s, c0.start, m), end: None }
    } else {
        Cursor { start: spec_apply_motion(s, c0.start, m), end: c0.end }
    };
    (s, c1, 0, 0)
}

/// The outcome of a backspace, as `backspace_case` pins it.
pub open spec fn spec_backspace_step(s: Seq<char>, c0: Cursor) -> (Seq<char>, Cursor, int, int) {
    let c2 = with_realized_start(s, c0);
    match c0.end {
        Some(_) => (
            sel_erased(s, c2),
            Cursor { start: cursor_first(c2), end: None },
            sel_dc(c2),
            sel_dr(c2),
        ),
        None => {
            let i = abs_of(s, c0.start);
            if i > 0 {
                let t = erase_range(s, i - 1, i);
                (
                    t,
                    Cursor {
                        start: Pos {
                            col: col_of(t, i - 1) as usize,
                            row: row_of(t, i - 1) as usize,
                        },
                        end: None,
                    },
                    if s[i - 1] == '\n' {
                        0int
                    } else {
                        -1int
                    },
                    if s[i - 1] == '\n' {
                        -1int
                    } else {
                        0int
                    },
                )
            } else {
                (s, c2, 0, 0)
            }
        },
    }
}

/// The outcome of typing one character (or Tab), as `insert_case` pins it.
pub open spec fn spec_insert_step(s: Seq<char>, c0: Cursor, ch: char) -> (
    Seq<char>,
    Cursor,
    int,
    int,
) {
    let c2 = with_realized_start(s, c0);
    let t1 = sel_erased(s, c2);
    let f = cursor_first(c2);
    let t2 = t1.insert(abs_of(t1, f), ch);
    (t2, Cursor { start: spec_move_col(t2, f, 1), end: None }, sel_dc(c2) + 1, sel_dr(c2))
}

/// The outcome of an Enter, as `enter_case` pins it.
pub open spec fn spec_enter_step(s: Seq<char>, c0: Cursor) -> (Seq<char>, Cursor, int, int) {
    let c2 = with_realized_start(s, c0);
    let t1 = sel_erased(s, c2);
    let f = cursor_first(c2);
    let t2 = t1.insert(abs_of(t1, f), '\n');
    (
        t2,
        Cursor { start: Pos { col: 0, row: (f.row + 1) as usize }, end: None },
        sel_dc(c2) - realized_col(t1, f),
        sel_dr(c2) + 1,
    )
}

/// The outcome of one event at one cursor, as a function of the inputs: the
/// new buffer, the new cursor, and the column/row shift — precisely what
/// the per-key case predicates of `Cursor::handle_input` pin down.
pub open spec fn spec_event_step(s: Seq<char>, c0: Cursor, ev: KeyEvent) -> (
    Seq<char>,
    Cursor,
    int,
    int,
) {
    match ev.key {
        Key::Up => spec_motion_step(s, c0, ev.shift, Motion::Up, true),
        Key::Down => spec_motion_step(s, c0, ev.shift, Motion::Down, true),
        Key::Left => spec_motion_step(s, c0, ev.shift, Motion::Left, true),
        Key::Right => spec_motion_step(s, c0, ev.shift, Motion::Right, true),
        Key::Home => spec_motion_step(s, c0, ev.shift, Motion::Home, false),
        Key::End => spec_motion_step(s, c0, ev.shift, Motion::End, false),
        Key::Backspace => spec_backspace_step(s, c0),
        Key::Enter => spec_enter_step(s, c0),
        Key::Tab => spec_insert_step(s, c0, '\t'),
        Key::Char(ch) => spec_insert_step(s, c0, ch),
        Key::Other => (s, c0, 0, 0),
    }
}

/// The per-key case predicates determine the outcome outright: whatever
/// buffer, cursor and deltas satisfy the matched case are the ones
/// `spec_event_step` computes.
pub proof fn lemma_event_step_determined(
    s: Seq<char>,
    c0: Cursor,
    ev: KeyEvent,
    t: Seq<char>,
    c1: Cursor,
    d: (i128, i128),
)
    requires
        match ev.key {
            Key::Up => arrow_case(s, t, c0, c1, d, ev.shift, Motion::Up),
            Key::Down => arrow_case(s, t, c0, c1, d, ev.shift, Motion::Down),
            Key::Left => arrow_case(s, t, c0, c1, d, ev.shift, Motion::Left),
            Key::Right => arrow_case(s, t, c0, c1, d, ev.shift, Motion::Right),
            Key::Home => endpoint_case(s, t, c0, c1, d, ev.shift, Motion::Home),
            Key::End => endpoint_case(s, t, c0, c1, d, ev.shift, Motion::End),
            Key::Backspace => backspace_case(s, t, c0, c1, d),
            Key::Enter => enter_case(s, t, c0, c1, d),
            Key::Tab => insert_case(s, t, c0, c1, d, '\t'),
            Key::Char(ch) => insert_case(s, t, c0, c1, d, ch),
            Key::Other => t == s && c1 == c0 && d.0 == 0 && d.1 == 0,
        },
    ensures
        ({
            let e = spec_event_step(s, c0, ev);
            t == e.0 && c1 == e.1 && d.0 == e.2 && d.1 == e.3
        }),
{
}

impl Default for Cursor {
    /// A bare caret at the top-left of the buffer.
    fn default() -> (c: Self)
        ensures
            c.start == (Pos { col: 0, row: 0 }),
            c.end is None,
    {
        Cursor { start: Pos { col: 0, row: 0 }, end: None }
    }
}

/// Law: row and column movement keep a valid position valid, and keep its
/// absolute offset within the buffer — so any number of moves, of any
/// distance, never leave the buffer.
pub proof fn lemma_movement_bounded(s: Seq<char>, p: Pos, change: int)
    requires
        pos_valid(s, p),
        s.len() <= usize::MAX,
    ensures
        pos_valid(s, spec_move_row(s, p, change)),
        pos_valid(s, spec_move_col(s, p, change)),
        0 <= abs_of(s, spec_move_row(s, p, change)) <= s.len(),
        0 <= abs_of(s, spec_move_col(s, p, change)) <= s.len(),
{
    lemma_line_end(s, p.row as int);
    let pr = spec_move_row(s, p, change);
    lemma_line_end(s, pr.row as int);
    let target = abs_of(s, p) + change;
    if 0 <= target <= s.len() {
        lemma_decompose(s, target);
        crate::text::lemma_nb_monotone(s, target, s.len() as int);
        crate::text::lemma_nb_monotone(s, 0, s.len() as int);
        assert(newlines_before(s, 0) == 0);
        lemma_line_end(s, row_of(s, target));
        let pc = spec_move_col(s, p, change);
        assert(pc.row == row_of(s, target) && pc.col == col_of(s, target));
        assert(abs_of(s, pc) == target);
    }
}

/// Buffer and caret after one character is typed at a bare caret: exactly
/// the `insert_case` outcome of `Cursor::handle_input` for a selection-free
/// cursor, and likewise the caret effect of `enter_case` when the character
/// is a terminator.
pub open spec fn spec_type_char(s: Seq<char>, p: Pos, ch: char) -> (Seq<char>, Pos) {
    let c2 = with_realized_start(s, Cursor { start: p, end: None });
    let t1 = sel_erased(s, c2);
    let f = cursor_first(c2);
    let t2 = t1.insert(abs_of(t1, f), ch);
    (t2, spec_move_col(t2, f, 1))
}

/// Buffer and caret after a backspace at a bare caret: exactly the
/// `backspace_case` outcome of `Cursor::handle_input` for a selection-free
/// cursor.
pub open spec fn spec_backspace_caret(s: Seq<char>, p: Pos) -> (Seq<char>, Pos) {
    let i = abs_of(s, p);
    if i > 0 {
        let t = erase_range(s, i - 1, i);
        (t, Pos { col: col_of(t, i - 1) as usize, row: row_of(t, i - 1) as usize })
    } else {
        (s, spec_realize(s, p))
    }
}

/// Typing the characters of `chars` one after the other.
pub open spec fn spec_type_seq(s: Seq<char>, p: Pos, chars: Seq<char>) -> (Seq<char>, Pos)
    decreases chars.len(),
{
    if chars.len() == 0 {
        (s, p)
    } else {
        let one = spec_type_char(s, p, chars.first());
        spec_type_seq(one.0, one.1, chars.drop_first())
    }
}

/// Pressing backspace `n` times.
pub open spec fn spec_backspace_n(s: Seq<char>, p: Pos, n: nat) -> (Seq<char>, Pos)
    decreases n,
{
    if n == 0 {
        (s, p)
    } else {
        let one = spec_backspace_caret(s, p);
        spec_backspace_n(one.0, one.1, (n - 1) as nat)
    }
}

/// Law: one backspace undoes one typed character — the buffer returns to
/// what it was and the caret to where it stood, its column realized.
#[verifier::rlimit(60)]
pub proof fn lemma_type_backspace(s: Seq<char>, p: Pos, ch: char)
    requires
        pos_valid(s, p),
        s.len() < usize::MAX,
    ensures
        ({
            let typed = spec_type_char(s, p, ch);
            &&& pos_valid(typed.0, typed.1)
            &&& spec_realize(typed.0, typed.1) == typed.1
            &&& abs_of(typed.0, typed.1) == abs_of(s, p) + 1
            &&& spec_backspace_caret(typed.0, typed.1) == (s, spec_realize(s, p))
        }),
{
    let row = p.row as int;
    let rc = realized_col(s, p);
    let i = abs_of(s, p);
    lemma_line_end(s, row);
    let c2 = with_realized_start(s, Cursor { start: p, end: None });
    let f = cursor_first(c2);
    let t1 = sel_erased(s, c2);
    assert(t1 =~= s);
    assert(abs_of(s, f) == i);
    let t2 = t1.insert(i, ch);
    lemma_insert_in_line(s, row, rc, ch);
    // the caret still reads as offset i in the grown buffer
    assert(abs_of(t2, f) == i);
    lemma_decompose(t2, i + 1);
    lemma_line_end(t2, row_of(t2, i + 1));
    crate::text::lemma_nb_monotone(t2, 0, t2.len() as int);
    assert(row_of(t2, i + 1) < line_count(t2) <= t2.len() + 1);
    let p1 = spec_move_col(t2, f, 1);
    assert(p1.row == row_of(t2, i + 1) && p1.col == col_of(t2, i + 1));
    assert(spec_realize(t2, p1) == p1);
    assert(abs_of(t2, p1) == i + 1);
    // backspace erases what was inserted
    let t3 = erase_range(t2, i, i + 1);
    s.insert_ensures(i, ch);
    assert(t3 =~= s);
    // and the caret falls back on the decomposition of offset i in s
    lemma_compose(s, row, rc);
    assert(col_of(s, i) == rc && row_of(s, i) == row);
}

/// Law: a backspace event undoes a typing event, as the two events'
/// contracts describe them — the buffer returns to what it was, and the
/// caret to where it stood, its column realized.
pub proof fn lemma_type_then_backspace_events(
    s: Seq<char>,
    c0: Cursor,
    ch: char,
    t: Seq<char>,
    c1: Cursor,
    d1: (i128, i128),
    u: Seq<char>,
    c2: Cursor,
    d2: (i128, i128),
)
    requires
        pos_valid(s, c0.start),
        c0.end is None,
        s.len() < usize::MAX,
        insert_case(s, t, c0, c1, d1, ch),
        backspace_case(t, u, c1, c2, d2),
    ensures
        u == s,
        c2.start == spec_realize(s, c0.start),
        c2.end is None,
{
    let p = c0.start;
    lemma_line_end(s, p.row as int);
    assert(c0 == (Cursor { start: p, end: None }));
    lemma_type_backspace(s, p, ch);
    let typed = spec_type_char(s, p, ch);
    assert(t == typed.0 && c1.start == typed.1);
    let undone = spec_backspace_caret(typed.0, typed.1);
    assert(abs_of(t, c1.start) == abs_of(s, p) + 1 > 0);
    assert(u == undone.0);
    assert(c2.start == undone.1);
}

/// `n + 1` backspaces are `n` backspaces followed by one more.
proof fn lemma_backspace_n_snoc(s: Seq<char>, p: Pos, n: nat)
    ensures
        ({
            let m = spec_backspace_n(s, p, n);
            spec_backspace_n(s, p, n + 1) == spec_backspace_caret(m.0, m.1)
        }),
    decreases n,
{
    let one = spec_backspace_caret(s, p);
    if n > 0 {
        lemma_backspace_n_snoc(one.0, one.1, (n - 1) as nat);
    } else {
        assert(spec_backspace_n(one.0, one.1, 0) == (one.0, one.1));
        assert(spec_backspace_n(s, p, 1) == spec_backspace_n(one.0, one.1, 0));
    }
}

/// Law: typing any sequence of characters at a bare caret and then pressing
/// backspace as many times restores the original buffer content and the
/// original caret position.  It holds from any position whose column is not
/// virtual — a virtual column is clamped by the first edit, by design, so
/// such a caret returns to its realization.
pub proof fn lemma_round_trip(s: Seq<char>, p: Pos, chars: Seq<char>)
    requires
        pos_valid(s, p),
        p.col <= line_len(s, p.row as int),
        s.len() + chars.len() <= usize::MAX,
    ensures
        ({
            let typed = spec_type_seq(s, p, chars);
            spec_backspace_n(typed.0, typed.1, chars.len()) == (s, p)
        }),
    decreases chars.len(),
{
    lemma_line_end(s, p.row as int);
    if chars.len() > 0 {
        let one = spec_type_char(s, p, chars.first());
        lemma_type_backspace(s, p, chars.first());
        lemma_line_end(one.0, one.1.row as int);
        lemma_round_trip(one.0, one.1, chars.drop_first());
        let typed = spec_type_seq(one.0, one.1, chars.drop_first());
        lemma_backspace_n_snoc(typed.0, typed.1, (chars.len() - 1) as nat);
        assert(spec_backspace_n(typed.0, typed.1, chars.len()) == spec_backspace_caret(
            one.0,
            one.1,
        ));
        assert(spec_realize(s, p) == p);
    }
}

} // verus!
