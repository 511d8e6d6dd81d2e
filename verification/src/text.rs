//! Mathematical model of a line-structured character sequence.
//!
//! A buffer is modelled as a `Seq<char>`; a line terminator is `'\n'`.
//! The sequence is split into `line_count` lines: each terminator ends a
//! line, and the (possibly empty) tail after the last terminator forms the
//! final line.  `line_start` gives the character offset of the first
//! character of a line, `line_len` the number of its characters excluding
//! the terminator.

use vstd::prelude::*;

verus! {

/// Number of line terminators in `s` strictly before offset `i`.
pub open spec fn newlines_before(s: Seq<char>, i: int) -> nat
    decreases i,
{
    if i <= 0 {
        0
    } else {
        newlines_before(s, i - 1) + (if s[i - 1] == '\n' {
            1nat
        } else {
            0nat
        })
    }
}

/// How many lines `s` has: one more than its number of terminators.
pub open spec fn line_count(s: Seq<char>) -> nat {
    newlines_before(s, s.len() as int) + 1
}

/// Offset of the first terminator at or after `i`, or `s.len()` if there is none.
pub open spec fn next_newline(s: Seq<char>, i: int) -> int
    recommends
        0 <= i <= s.len(),
    decreases s.len() - i,
{
    if i < 0 || i >= s.len() {
        s.len() as int
    } else if s[i] == '\n' {
        i
    } else {
        next_newline(s, i + 1)
    }
}

/// Offset of the first character of line `row`.
pub open spec fn line_start(s: Seq<char>, row: int) -> int
    recommends
        0 <= row < line_count(s),
    decreases row,
{
    if row <= 0 {
        0
    } else {
        next_newline(s, line_start(s, row - 1)) + 1
    }
}

/// Length of line `row`, excluding its terminator.
pub open spec fn line_len(s: Seq<char>, row: int) -> int
    recommends
        0 <= row < line_count(s),
{
    next_newline(s, line_start(s, row)) - line_start(s, row)
}

/// The row that offset `off` falls in: a terminator's own offset still
/// belongs to the line it ends, the offset just after it to the next line.
pub open spec fn row_of(s: Seq<char>, off: int) -> int {
    newlines_before(s, off) as int
}

/// The column of offset `off` within its row.
pub open spec fn col_of(s: Seq<char>, off: int) -> int {
    off - line_start(s, row_of(s, off))
}

/// Counting terminators is monotone, and grows at most one per character.
pub proof fn lemma_nb_monotone(s: Seq<char>, i: int, j: int)
    requires
        0 <= i <= j,
    ensures
        newlines_before(s, i) <= newlines_before(s, j),
        newlines_before(s, j) - newlines_before(s, i) <= j - i,
    decreases j,
{
    if i < j {
        lemma_nb_monotone(s, i, j - 1);
    }
}

/// A stretch without terminators adds no terminator to the count.
pub proof fn lemma_nb_flat(s: Seq<char>, i: int, j: int)
    requires
        0 <= i <= j,
        forall|k: int| i <= k < j ==> s[k] != '\n',
    ensures
        newlines_before(s, j) == newlines_before(s, i),
    decreases j,
{
    if i < j {
        lemma_nb_flat(s, i, j - 1);
    }
}

/// What `next_newline` returns: the least terminator offset at or after `i`.
pub proof fn lemma_next_newline(s: Seq<char>, i: int)
    requires
        0 <= i <= s.len(),
    ensures
        i <= next_newline(s, i) <= s.len(),
        forall|k: int| i <= k < next_newline(s, i) ==> s[k] != '\n',
        next_newline(s, i) < s.len() ==> s[next_newline(s, i)] == '\n',
        forall|j: int| i <= j < s.len() && s[j] == '\n' ==> next_newline(s, i) <= j,
    decreases s.len() - i,
{
    if i < s.len() && s[i] != '\n' {
        lemma_next_newline(s, i + 1);
    }
}

/// A line's start lies in the buffer, has `row` terminators before it, and
/// all but the first line start right after a terminator.
pub proof fn lemma_line_start(s: Seq<char>, row: int)
    requires
        0 <= row < line_count(s),
    ensures
        0 <= line_start(s, row) <= s.len(),
        newlines_before(s, line_start(s, row)) == row,
        row > 0 ==> 1 <= line_start(s, row) && s[line_start(s, row) - 1] == '\n',
    decreases row,
{
    if row > 0 {
        lemma_line_start(s, row - 1);
        let p = line_start(s, row - 1);
        let nn = next_newline(s, p);
        lemma_next_newline(s, p);
        lemma_nb_flat(s, p, nn);
        if nn == s.len() {
            // then all of line row-1 runs to the end: s has only row-1
            // terminators, contradicting row < line_count(s)
            lemma_nb_monotone(s, nn, s.len() as int);
            assert(false);
        }
        assert(newlines_before(s, nn + 1) == newlines_before(s, nn) + 1);
    }
}

/// Where a line ends: at a terminator, except the last line, which ends at
/// the end of the buffer.
pub proof fn lemma_line_end(s: Seq<char>, row: int)
    requires
        0 <= row < line_count(s),
    ensures
        0 <= line_start(s, row),
        line_start(s, row) <= line_start(s, row) + line_len(s, row) <= s.len(),
        forall|k: int|
            line_start(s, row) <= k < line_start(s, row) + line_len(s, row) ==> s[k] != '\n',
        row < line_count(s) - 1 ==> line_start(s, row) + line_len(s, row) < s.len()
            && s[line_start(s, row) + line_len(s, row)] == '\n'
            && line_start(s, row + 1) == line_start(s, row) + line_len(s, row) + 1,
        row == line_count(s) - 1 ==> line_start(s, row) + line_len(s, row) == s.len(),
{
    let p = line_start(s, row);
    let nn = next_newline(s, p);
    lemma_line_start(s, row);
    lemma_next_newline(s, p);
    lemma_nb_flat(s, p, nn);
    if nn == s.len() {
        // no further terminator: this is the last line
        assert(newlines_before(s, s.len() as int) == row);
    } else {
        assert(newlines_before(s, nn + 1) == newlines_before(s, nn) + 1);
        lemma_nb_monotone(s, nn + 1, s.len() as int);
    }
}

/// Every buffer offset decomposes into a row and a column within that row.
pub proof fn lemma_decompose(s: Seq<char>, off: int)
    requires
        0 <= off <= s.len(),
    ensures
        0 <= row_of(s, off) < line_count(s),
        line_start(s, row_of(s, off)) <= off,
        0 <= col_of(s, off) <= line_len(s, row_of(s, off)),
        line_start(s, row_of(s, off)) + col_of(s, off) == off,
    decreases off,
{
    lemma_nb_monotone(s, off, s.len() as int);
    if off == 0 {
        lemma_next_newline(s, 0);
    } else {
        lemma_decompose(s, off - 1);
        let r = row_of(s, off - 1);
        lemma_line_start(s, r);
        lemma_line_end(s, r);
        let p = line_start(s, r);
        let nn = next_newline(s, p);
        lemma_next_newline(s, p);
        if s[off - 1] == '\n' {
            // off - 1 is a terminator inside line r, so it is exactly line
            // r's terminator, and off starts line r + 1
            assert(nn == off - 1);
            assert(row_of(s, off) == r + 1);
            lemma_line_start(s, r + 1);
            assert(line_start(s, r + 1) == off);
            lemma_next_newline(s, off);
        } else {
            assert(row_of(s, off) == r);
            assert(off - 1 < nn);
        }
    }
}

/// The decomposition is unique: a valid row/column pair is recovered from
/// its absolute offset.
pub proof fn lemma_compose(s: Seq<char>, row: int, col: int)
    requires
        0 <= row < line_count(s),
        0 <= col <= line_len(s, row),
    ensures
        0 <= line_start(s, row) + col <= s.len(),
        row_of(s, line_start(s, row) + col) == row,
        col_of(s, line_start(s, row) + col) == col,
{
    lemma_line_start(s, row);
    lemma_line_end(s, row);
    let p = line_start(s, row);
    lemma_nb_flat(s, p, p + col);
}

/// Line starts grow strictly with the row index.
pub proof fn lemma_line_start_monotone(s: Seq<char>, r1: int, r2: int)
    requires
        0 <= r1 <= r2 < line_count(s),
    ensures
        line_start(s, r1) + (r2 - r1) <= line_start(s, r2),
    decreases r2 - r1,
{
    if r1 < r2 {
        lemma_line_start_monotone(s, r1, r2 - 1);
        lemma_line_end(s, r2 - 1);
    }
}

/// Only one offset can start a given line.
pub proof fn lemma_line_start_unique(s: Seq<char>, row: int, l: int)
    requires
        0 <= row < line_count(s),
        0 <= l <= s.len(),
        newlines_before(s, l) == row,
        l == 0 || s[l - 1] == '\n',
    ensures
        line_start(s, row) == l,
{
    lemma_line_start(s, row);
    let p = line_start(s, row);
    if l < p {
        // row terminators strictly before l, yet one more appears at p - 1 <= ...
        lemma_nb_monotone(s, l, p - 1);
        assert(newlines_before(s, p) == newlines_before(s, p - 1) + 1);
    } else if p < l {
        lemma_nb_monotone(s, p, l - 1);
        assert(newlines_before(s, l) == newlines_before(s, l - 1) + 1);
    }
}

/// Only one length fits a line: up to the first terminator after its start.
pub proof fn lemma_line_len_unique(s: Seq<char>, row: int, e: int)
    requires
        0 <= row < line_count(s),
        line_start(s, row) <= e <= s.len(),
        forall|k: int| line_start(s, row) <= k < e ==> s[k] != '\n',
        e == s.len() || s[e] == '\n',
    ensures
        line_len(s, row) == e - line_start(s, row),
{
    lemma_line_start(s, row);
    let p = line_start(s, row);
    lemma_next_newline(s, p);
}

/// How terminator counts behave across a concatenation.
pub proof fn lemma_nb_concat(s1: Seq<char>, s2: Seq<char>, j: int)
    requires
        0 <= j <= s1.len() + s2.len(),
    ensures
        newlines_before(s1 + s2, j) == if j <= s1.len() {
            newlines_before(s1, j) as int
        } else {
            newlines_before(s1, s1.len() as int) + newlines_before(s2, j - s1.len()) as int
        },
    decreases j,
{
    if j > 0 {
        lemma_nb_concat(s1, s2, j - 1);
        if j - 1 < s1.len() {
            assert((s1 + s2)[j - 1] == s1[j - 1]);
            assert(newlines_before(s1, j) == newlines_before(s1, j - 1) + (if s1[j - 1] == '\n' {
                1nat
            } else {
                0nat
            }));
        } else {
            assert((s1 + s2)[j - 1] == s2[j - 1 - s1.len()]);
            assert(newlines_before(s2, j - s1.len()) == newlines_before(s2, j - 1 - s1.len()) + (
            if s2[j - 1 - s1.len()] == '\n' {
                1nat
            } else {
                0nat
            }));
        }
    }
}

/// Removal of the character range `[a, b)`.
pub open spec fn erase_range(s: Seq<char>, a: int, b: int) -> Seq<char>
    recommends
        0 <= a <= b <= s.len(),
{
    s.subrange(0, a) + s.subrange(b, s.len() as int)
}

/// How terminator counts behave across taking a subrange.
pub proof fn lemma_nb_subrange(s: Seq<char>, a: int, b: int, j: int)
    requires
        0 <= a <= b <= s.len(),
        0 <= j <= b - a,
    ensures
        newlines_before(s.subrange(a, b), j) == newlines_before(s, a + j) - newlines_before(
            s,
            a,
        ),
    decreases j,
{
    if j > 0 {
        lemma_nb_subrange(s, a, b, j - 1);
        assert(s.subrange(a, b)[j - 1] == s[a + j - 1]);
    }
}

/// Terminator counts after erasing the range `[a, b)`.
pub proof fn lemma_nb_erase(s: Seq<char>, a: int, b: int, j: int)
    requires
        0 <= a <= b <= s.len(),
        0 <= j <= s.len() - (b - a),
    ensures
        newlines_before(erase_range(s, a, b), j) == if j <= a {
            newlines_before(s, j) as int
        } else {
            newlines_before(s, a) + newlines_before(s, j + (b - a)) - newlines_before(s, b)
        },
{
    lemma_nb_concat(s.subrange(0, a), s.subrange(b, s.len() as int), j);
    if j <= a {
        lemma_nb_subrange(s, 0, a, j);
    } else {
        lemma_nb_subrange(s, 0, a, a);
        lemma_nb_subrange(s, b, s.len() as int, j - a);
    }
}

/// Terminator counts after inserting `ch` at offset `off`.
pub proof fn lemma_nb_insert(s: Seq<char>, off: int, ch: char, j: int)
    requires
        0 <= off <= s.len(),
        0 <= j <= s.len() + 1,
    ensures
        newlines_before(s.insert(off, ch), j) == if j <= off {
            newlines_before(s, j) as int
        } else {
            newlines_before(s, j - 1) + (if ch == '\n' {
                1int
            } else {
                0int
            })
        },
{
    let s1 = s.subrange(0, off) + seq![ch];
    let s2 = s.subrange(off, s.len() as int);
    assert(s.insert(off, ch) =~= s1 + s2);
    lemma_nb_concat(s1, s2, j);
    assert(seq![ch][0] == ch);
    assert(newlines_before(seq![ch], 0) == 0);
    assert(newlines_before(seq![ch], 1) == 0 + (if seq![ch][0] == '\n' {
        1nat
    } else {
        0nat
    }));
    if j <= off {
        lemma_nb_concat(s.subrange(0, off), seq![ch], j);
        lemma_nb_subrange(s, 0, off, j);
    } else {
        lemma_nb_concat(s.subrange(0, off), seq![ch], off + 1);
        lemma_nb_subrange(s, 0, off, off);
        lemma_nb_subrange(s, off, s.len() as int, j - 1 - off);
    }
}

/// Erasing the range between two in-line offsets — from column `c1` of row
/// `r1` up to column `c2` of row `r2` — joins the head of row `r1` to the
/// tail of row `r2` and drops the rows in between.
pub proof fn lemma_erase_between(s: Seq<char>, r1: int, c1: int, r2: int, c2: int)
    requires
        0 <= r1 < line_count(s),
        0 <= r2 < line_count(s),
        0 <= c1 <= line_len(s, r1),
        0 <= c2 <= line_len(s, r2),
        r1 < r2 || (r1 == r2 && c1 <= c2),
    ensures
        ({
            let a = line_start(s, r1) + c1;
            let b = line_start(s, r2) + c2;
            let t = erase_range(s, a, b);
            &&& 0 <= a <= b <= s.len()
            &&& t.len() == s.len() - (b - a)
            &&& line_count(t) == line_count(s) - (r2 - r1)
            &&& r1 < line_count(t)
            &&& line_start(t, r1) == line_start(s, r1)
            &&& line_len(t, r1) == c1 + (line_len(s, r2) - c2)
        }),
{
    let a = line_start(s, r1) + c1;
    let b = line_start(s, r2) + c2;
    lemma_compose(s, r1, c1);
    lemma_compose(s, r2, c2);
    lemma_line_start(s, r1);
    lemma_line_start(s, r2);
    lemma_line_end(s, r1);
    lemma_line_end(s, r2);
    if r1 < r2 {
        lemma_line_start_monotone(s, r1 + 1, r2);
    }
    assert(a <= b);
    let t = erase_range(s, a, b);
    assert(t.len() == s.len() - (b - a));
    // characters of t: prefix copied, suffix shifted left by b - a
    assert(forall|k: int| 0 <= k < a ==> t[k] == s[k]);
    assert(forall|k: int| a <= k < t.len() ==> t[k] == s[k + (b - a)]);
    // terminator counts in t
    assert forall|j: int| 0 <= j <= t.len() implies newlines_before(t, j) == (if j <= a {
        newlines_before(s, j) as int
    } else {
        newlines_before(s, a) + newlines_before(s, j + (b - a)) - newlines_before(s, b)
    }) by {
        lemma_nb_erase(s, a, b, j);
    }
    assert(line_count(t) == line_count(s) - (r2 - r1));
    assert(r1 < line_count(t));
    // line r1 still starts where it did
    lemma_line_start_unique(t, r1, line_start(s, r1));
    // and now runs to what used to end line r2
    let e = a + (line_len(s, r2) - c2);
    assert forall|k: int| line_start(t, r1) <= k < e implies t[k] != '\n' by {
        if k < a {
        } else {
            assert(t[k] == s[k + (b - a)]);
        }
    }
    if e < t.len() {
        assert(t[e] == s[line_start(s, r2) + line_len(s, r2)]);
        assert(r2 < line_count(s) - 1);
    }
    lemma_line_len_unique(t, r1, e);
}

/// Inserting one character at column `col` of row `row` lengthens that row,
/// or — for a terminator — splits it, starting a fresh row at the offset
/// just after the insertion.
pub proof fn lemma_insert_in_line(s: Seq<char>, row: int, col: int, ch: char)
    requires
        0 <= row < line_count(s),
        0 <= col <= line_len(s, row),
    ensures
        ({
            let off = line_start(s, row) + col;
            let t = s.insert(off, ch);
            &&& 0 <= off <= s.len()
            &&& t.len() == s.len() + 1
            &&& (ch != '\n' ==> line_count(t) == line_count(s) && row < line_count(t)
                && line_start(t, row) == line_start(s, row) && line_len(t, row) == line_len(
                s,
                row,
            ) + 1)
            &&& (ch == '\n' ==> line_count(t) == line_count(s) + 1 && row + 1 < line_count(t)
                && line_start(t, row + 1) == off + 1 && line_start(t, row) == line_start(s, row)
                && line_len(t, row) == col)
        }),
{
    let off = line_start(s, row) + col;
    lemma_compose(s, row, col);
    lemma_line_start(s, row);
    lemma_line_end(s, row);
    let t = s.insert(off, ch);
    s.insert_ensures(off, ch);
    assert forall|j: int| 0 <= j <= t.len() implies newlines_before(t, j) == (if j <= off {
        newlines_before(s, j) as int
    } else {
        newlines_before(s, j - 1) + (if ch == '\n' {
            1int
        } else {
            0int
        })
    }) by {
        lemma_nb_insert(s, off, ch, j);
    }
    if ch != '\n' {
        assert(line_count(t) == line_count(s));
        lemma_line_start_unique(t, row, line_start(s, row));
        let e = line_start(s, row) + line_len(s, row) + 1;
        assert forall|k: int| line_start(t, row) <= k < e implies t[k] != '\n' by {
            if k < off {
            } else if k == off {
            } else {
                assert(t[k] == s[k - 1]);
            }
        }
        if e < t.len() {
            assert(t[e] == s[e - 1]);
            assert(row < line_count(s) - 1);
        } else {
            assert(line_start(s, row) + line_len(s, row) == s.len());
        }
        lemma_line_len_unique(t, row, e);
    } else {
        assert(line_count(t) == line_count(s) + 1);
        assert(newlines_before(t, off + 1) == row + 1);
        assert(t[off] == '\n');
        lemma_line_start_unique(t, row + 1, off + 1);
        lemma_line_start_unique(t, row, line_start(s, row));
        assert forall|k: int| line_start(t, row) <= k < off implies t[k] != '\n' by {
            assert(t[k] == s[k]);
        }
        lemma_line_len_unique(t, row, off);
    }
}

} // verus!
