//! The ordered set of all active cursors.
//!
//! `Cursors` owns multi-cursor coordination: one input event is dispatched
//! to every cursor in buffer order, with the row/column shifts each edit
//! causes carried forward to the cursors after it; afterwards a merge pass
//! collapses cursors whose covered ranges overlap or touch, so that the set
//! stays normalized — sorted, with pairwise disjoint, non-touching ranges.

use vstd::prelude::*;

use crate::buffer::{rope_len_lines, rope_text};
use crate::cursor::{
    clamp_col, cursor_first, cursor_last, cursor_valid, lemma_event_step_determined, pos_le,
    pos_valid, spec_event_step, spec_move_col, spec_move_row, Cursor, Key, KeyEvent, Pos,
};
use crate::text::line_count;

verus! {

/// Strict row-major order on positions.
pub open spec fn pos_lt(a: Pos, b: Pos) -> bool {
    a.row < b.row || (a.row == b.row && a.col < b.col)
}

/// Whether the selection anchor lies strictly before the caret.
pub open spec fn is_reversed(c: Cursor) -> bool {
    match c.end {
        Some(e) => pos_lt(e, c.start),
        None => false,
    }
}

/// No degenerate selection: an anchor, if present, differs from the caret.
pub open spec fn proper(c: Cursor) -> bool {
    match c.end {
        Some(e) => e != c.start,
        None => true,
    }
}

/// Merge-pass order on cursors: by earlier endpoint, a forward cursor
/// before a reversed one at the same spot.
pub open spec fn cursor_key_le(a: Cursor, b: Cursor) -> bool {
    ||| pos_lt(cursor_first(a), cursor_first(b))
    ||| (cursor_first(a) == cursor_first(b) && (is_reversed(a) ==> is_reversed(b)))
}

/// Sorted for the merge pass.
pub open spec fn sorted_cursors(s: Seq<Cursor>) -> bool {
    forall|i: int, j: int| 0 <= i < j < s.len() ==> cursor_key_le(s[i], s[j])
}

/// A normalized cursor set: no degenerate selections, and each cursor's
/// whole range lies strictly before the next one's — no overlap, no touch.
pub open spec fn is_normalized(s: Seq<Cursor>) -> bool {
    &&& forall|i: int| 0 <= i < s.len() ==> proper(#[trigger] s[i])
    &&& forall|i: int|
        0 <= i < s.len() - 1 ==> pos_lt(cursor_last(#[trigger] s[i]), cursor_first(s[i + 1]))
}

/// The position is one that some cursor of the set holds.
pub open spec fn holds_pos(s: Seq<Cursor>, p: Pos) -> bool {
    exists|i: int|
        0 <= i < s.len() && (#[trigger] s[i].start == p || s[i].end == Some(p))
}

/// Every position a cursor of the set holds sits on a valid row.
pub open spec fn cursors_valid(t: Seq<char>, s: Seq<Cursor>) -> bool {
    forall|i: int| 0 <= i < s.len() ==> cursor_valid(t, #[trigger] s[i])
}

impl Pos {
    /// Strict row-major comparison by the stored fields.
    pub(crate) fn lt(&self, other: &Pos) -> (r: bool)
        ensures
            r == pos_lt(*self, *other),
    {
        self.row < other.row || (self.row == other.row && self.col < other.col)
    }
}

/// Exec mirror of `cursor_key_le`.
fn cursor_key_le_exec(a: &Cursor, b: &Cursor) -> (r: bool)
    ensures
        r == cursor_key_le(*a, *b),
{
    let fa = a.first();
    let fb = b.first();
    if fa.lt(&fb) {
        true
    } else if fa.row == fb.row && fa.col == fb.col {
        let ra = match &a.end {
            Some(e) => e.lt(&a.start),
            None => false,
        };
        let rb = match &b.end {
            Some(e) => e.lt(&b.start),
            None => false,
        };
        !ra || rb
    } else {
        false
    }
}

/// Stable insertion sort by the merge-pass order.  If the earlier endpoints
/// are already strictly increasing, the sequence comes back unchanged.
#[verifier::rlimit(100)]
fn sort_cursors(v: &Vec<Cursor>) -> (r: Vec<Cursor>)
    ensures
        r@.len() == v@.len(),
        sorted_cursors(r@),
        forall|j: int| 0 <= j < r@.len() ==> v@.contains(#[trigger] r@[j]),
        forall|j: int| 0 <= j < v@.len() ==> r@.contains(#[trigger] v@[j]),
        (forall|i: int, j: int|
            0 <= i < j < v@.len() ==> pos_lt(
                cursor_first(#[trigger] v@[i]),
                cursor_first(#[trigger] v@[j]),
            )) ==> r@ == v@,
{
    let ghost strict = forall|i: int, j: int|
        0 <= i < j < v@.len() ==> pos_lt(
            cursor_first(#[trigger] v@[i]),
            cursor_first(#[trigger] v@[j]),
        );
    let mut r: Vec<Cursor> = Vec::new();
    let mut k: usize = 0;
    while k < v.len()
        invariant
            k <= v@.len(),
            r@.len() == k,
            sorted_cursors(r@),
            forall|j: int| 0 <= j < r@.len() ==> v@.contains(#[trigger] r@[j]),
            forall|j: int| 0 <= j < k ==> r@.contains(#[trigger] v@[j]),
            strict == (forall|i: int, j: int|
                0 <= i < j < v@.len() ==> pos_lt(
                    cursor_first(#[trigger] v@[i]),
                    cursor_first(#[trigger] v@[j]),
                )),
            strict ==> r@ == v@.take(k as int),
        decreases v@.len() - k,
    {
        let c = v[k];
        let mut p: usize = 0;
        loop
            invariant_except_break
                p <= r@.len(),
                forall|i: int| 0 <= i < p ==> cursor_key_le(#[trigger] r@[i], c),
            ensures
                p <= r@.len(),
                forall|i: int| 0 <= i < p ==> cursor_key_le(#[trigger] r@[i], c),
                p < r@.len() ==> !cursor_key_le(r@[p as int], c),
            decreases r@.len() - p,
        {
            if p >= r.len() {
                break ;
            }
            if !cursor_key_le_exec(&r[p], &c) {
                break ;
            }
            p = p + 1;
        }
        proof {
            if strict {
                // every element already placed is v@[i] for i < k, whose key
                // lies strictly below c's: the scan runs to the end
                assert forall|i: int| 0 <= i < r@.len() implies cursor_key_le(
                    #[trigger] r@[i],
                    c,
                ) by {
                    assert(r@[i] == v@.take(k as int)[i]);
                    assert(pos_lt(cursor_first(v@[i]), cursor_first(v@[k as int])));
                }
                assert(p == r@.len());
            }
        }
        let ghost r0 = r@;
        r.insert(p, c);
        proof {
            r0.insert_ensures(p as int, c);
            // the scan stopped either at the end or at the first element
            // not below c; the order is total, so c sits below that element
            assert((p as int) < r0.len() ==> cursor_key_le(c, r0[p as int]));
            assert forall|i: int, j: int| 0 <= i < j < r@.len() implies cursor_key_le(
                #[trigger] r@[i],
                #[trigger] r@[j],
            ) by {
                if j < p {
                    assert(r@[i] == r0[i] && r@[j] == r0[j]);
                } else if i < p && j == p {
                    assert(r@[i] == r0[i] && r@[j] == c);
                } else if i < p && j > p {
                    assert(r@[i] == r0[i] && r@[j] == r0[j - 1]);
                } else if i == p && j > p {
                    // c <= r0[p] <= r0[j - 1]
                    assert(r@[i] == c && r@[j] == r0[j - 1]);
                    assert(cursor_key_le(r0[p as int], r0[j - 1]));
                } else {
                    assert(r@[i] == r0[i - 1] && r@[j] == r0[j - 1]);
                }
            }
            // nothing already placed is displaced by the insertion
            assert forall|j: int| 0 <= j < k + 1 implies r@.contains(#[trigger] v@[j]) by {
                if j < k {
                    let i0 = choose|i0: int| 0 <= i0 < r0.len() && r0[i0] == v@[j];
                    if i0 < p {
                        assert(r@[i0] == v@[j]);
                    } else {
                        assert(r@[i0 + 1] == v@[j]);
                    }
                } else {
                    assert(r@[p as int] == v@[j]);
                }
            }
            if strict {
                assert(r@ =~= v@.take(k as int + 1));
            }
        }
        k = k + 1;
    }
    proof {
        if strict {
            assert(r@ =~= v@);
        }
    }
    r
}

/// The one cursor a merged group leaves behind: a caret if the group is a
/// point, else a selection spanning the group, oriented like the group's
/// first member.
pub open spec fn spec_emit(glo: Pos, ghi: Pos, grev: bool) -> Cursor {
    if glo == ghi {
        Cursor { start: glo, end: None }
    } else if grev {
        Cursor { start: ghi, end: Some(glo) }
    } else {
        Cursor { start: glo, end: Some(ghi) }
    }
}

fn reversed_exec(c: &Cursor) -> (r: bool)
    ensures
        r == is_reversed(*c),
{
    match &c.end {
        Some(e) => e.lt(&c.start),
        None => false,
    }
}

fn emit_group(glo: Pos, ghi: Pos, grev: bool) -> (c: Cursor)
    ensures
        c == spec_emit(glo, ghi, grev),
{
    if glo.row == ghi.row && glo.col == ghi.col {
        Cursor { start: glo, end: None }
    } else if grev {
        Cursor { start: ghi, end: Some(glo) }
    } else {
        Cursor { start: glo, end: Some(ghi) }
    }
}

/// In a normalized set every cursor's range lies strictly before every
/// later cursor's, not only its neighbour's.
proof fn lemma_normalized_separated(s: Seq<Cursor>, i: int, j: int)
    requires
        is_normalized(s),
        0 <= i < j < s.len(),
    ensures
        pos_lt(cursor_last(s[i]), cursor_first(s[j])),
    decreases j - i,
{
    if j > i + 1 {
        lemma_normalized_separated(s, i, j - 1);
        assert(pos_le(cursor_first(s[j - 1]), cursor_last(s[j - 1])));
    }
}

/// The cursor's whole range lies inside the survivor's range.
pub open spec fn range_inside(c: Cursor, g: Cursor) -> bool {
    pos_le(cursor_first(g), cursor_first(c)) && pos_le(cursor_last(c), cursor_last(g))
}

/// A survivor that is a selection runs backwards exactly when no cursor of
/// the set inside its range both starts where it starts and runs forward —
/// the orientation of the merged group's first member.
pub open spec fn orientation_from_first(cs: Seq<Cursor>, g: Cursor) -> bool {
    match g.end {
        Some(_) => is_reversed(g) == !(exists|i: int|
            0 <= i < cs.len() && range_inside(#[trigger] cs[i], g) && cursor_first(cs[i])
                == cursor_first(g) && !is_reversed(cs[i])),
        None => true,
    }
}

/// The point lies in the cursor's covered range.
pub open spec fn covers_point(c: Cursor, p: Pos) -> bool {
    pos_le(cursor_first(c), p) && pos_le(p, cursor_last(c))
}

/// The point lies between the two bounds, inclusive.
pub open spec fn between(lo: Pos, hi: Pos, p: Pos) -> bool {
    pos_le(lo, p) && pos_le(p, hi)
}

/// Every point of the survivor's range lies in some cursor's range: a
/// survivor never spans beyond the union of the ranges it absorbed.
pub open spec fn span_within(cs: Seq<Cursor>, g: Cursor) -> bool {
    forall|p: Pos|
        #[trigger] covers_point(g, p) ==> exists|i: int|
            0 <= i < cs.len() && covers_point(#[trigger] cs[i], p)
}

/// Some cursor of `out` spans the whole range of `c`.
pub open spec fn range_covered(out: Seq<Cursor>, c: Cursor) -> bool {
    exists|j: int|
        0 <= j < out.len() && pos_le(cursor_first(#[trigger] out[j]), cursor_first(c)) && pos_le(
            cursor_last(c),
            cursor_last(out[j]),
        )
}

/// Appending the merged cursor of the open group keeps every range that
/// was covered — by the output so far or by the group — covered.
proof fn lemma_push_covers(
    out0: Seq<Cursor>,
    done: Cursor,
    sc: Seq<Cursor>,
    gstart: int,
    upto: int,
)
    requires
        0 <= gstart <= upto <= sc.len(),
        forall|i: int| 0 <= i < gstart ==> range_covered(out0, #[trigger] sc[i]),
        forall|i: int|
            gstart <= i < upto ==> pos_le(cursor_first(done), cursor_first(#[trigger] sc[i]))
                && pos_le(cursor_last(sc[i]), cursor_last(done)),
    ensures
        forall|i: int| 0 <= i < upto ==> range_covered(out0.push(done), #[trigger] sc[i]),
{
    let out1 = out0.push(done);
    assert forall|i: int| 0 <= i < upto implies range_covered(out1, #[trigger] sc[i]) by {
        if i < gstart {
            let j0 = choose|j0: int|
                0 <= j0 < out0.len() && pos_le(cursor_first(out0[j0]), cursor_first(sc[i]))
                    && pos_le(cursor_last(sc[i]), cursor_last(out0[j0]));
            assert(out1[j0] == out0[j0]);
        } else {
            assert(out1[out0.len() as int] == done);
        }
    }
}

/// Coverage carries from the sorted copy back to the set as it was given.
proof fn lemma_coverage_transfer(orig: Seq<Cursor>, sc: Seq<Cursor>, out: Seq<Cursor>)
    requires
        forall|j: int| 0 <= j < orig.len() ==> sc.contains(#[trigger] orig[j]),
        forall|i: int| 0 <= i < sc.len() ==> range_covered(out, #[trigger] sc[i]),
    ensures
        forall|i: int| 0 <= i < orig.len() ==> range_covered(out, #[trigger] orig[i]),
{
    assert forall|i: int| 0 <= i < orig.len() implies range_covered(out, #[trigger] orig[i]) by {
        assert(sc.contains(orig[i]));
        let k0 = choose|k0: int| 0 <= k0 < sc.len() && sc[k0] == orig[i];
        assert(range_covered(out, sc[k0]));
    }
}

/// The ordered set of all active cursors.  Never meant to be empty: the
/// merge pass always leaves at least one cursor of what it was given.
#[derive(Debug, Clone, PartialEq, Eq)]
pub struct Cursors(pub Vec<Cursor>);

/// A set whose earlier endpoints strictly increase is normalized-sorted:
/// in a normalized set each range ends strictly before the next begins.
proof fn lemma_normalized_strict(s: Seq<Cursor>)
    ensures
        is_normalized(s) ==> forall|i: int, j: int|
            0 <= i < j < s.len() ==> pos_lt(
                cursor_first(#[trigger] s[i]),
                cursor_first(#[trigger] s[j]),
            ),
{
    if is_normalized(s) {
        assert forall|i: int, j: int| 0 <= i < j < s.len() implies pos_lt(
            cursor_first(#[trigger] s[i]),
            cursor_first(#[trigger] s[j]),
        ) by {
            lemma_normalized_separated(s, i, j);
            assert(pos_le(cursor_first(s[i]), cursor_last(s[i])));
        }
    }
}

/// The merged cursor of a closed group keeps its first member's
/// orientation and never spans beyond the union of its members' ranges.
#[verifier::rlimit(100)]
proof fn lemma_emit_full(
    sc: Seq<Cursor>,
    gstart: int,
    kk: int,
    glo: Pos,
    ghi: Pos,
    grev: bool,
)
    requires
        0 <= gstart < kk <= sc.len(),
        sorted_cursors(sc),
        glo == cursor_first(sc[gstart]),
        grev == is_reversed(sc[gstart]),
        pos_le(glo, ghi),
        forall|i: int|
            gstart <= i < kk ==> pos_le(glo, cursor_first(#[trigger] sc[i])) && pos_le(
                cursor_last(sc[i]),
                ghi,
            ),
        forall|i: int| 0 <= i < gstart ==> pos_lt(cursor_last(#[trigger] sc[i]), glo),
        kk < sc.len() ==> pos_lt(ghi, cursor_first(sc[kk])),
        forall|p: Pos|
            #[trigger] between(glo, ghi, p) ==> exists|i: int|
                gstart <= i < kk && covers_point(#[trigger] sc[i], p),
    ensures
        orientation_from_first(sc, spec_emit(glo, ghi, grev)),
        span_within(sc, spec_emit(glo, ghi, grev)),
{
    lemma_emit_shape(glo, ghi, grev);
    let g = spec_emit(glo, ghi, grev);
    assert forall|p: Pos| #[trigger] covers_point(g, p) implies exists|i: int|
        0 <= i < sc.len() && covers_point(#[trigger] sc[i], p) by {
        assert(between(glo, ghi, p));
        let i0 = choose|i0: int| gstart <= i0 < kk && covers_point(sc[i0], p);
        assert(0 <= i0 < sc.len());
    }
    match g.end {
        Some(_) => {
            if !grev {
                // the group's first member starts the span and runs forward
                assert(range_inside(sc[gstart], g) && cursor_first(sc[gstart])
                    == cursor_first(g) && !is_reversed(sc[gstart]));
            } else {
                // every member starting at the span's head runs backwards:
                // the sort put forward cursors first at equal positions
                assert forall|i: int|
                    0 <= i < sc.len() && range_inside(#[trigger] sc[i], g) && cursor_first(
                        sc[i],
                    ) == cursor_first(g) implies is_reversed(sc[i]) by {
                    assert(pos_le(cursor_first(sc[i]), cursor_last(sc[i])));
                    if i < gstart {
                        assert(false);
                    } else if i >= kk {
                        assert(cursor_key_le(sc[kk], sc[i]));
                        assert(false);
                    } else if i > gstart {
                        assert(cursor_key_le(sc[gstart], sc[i]));
                    }
                }
            }
        },
        None => {},
    }
}

/// The scan of the merge pass, over a sequence already sorted for it:
/// consecutive cursors whose ranges overlap or touch are grouped, and each
/// group leaves one cursor spanning it.
#[verifier::rlimit(100)]
fn merge_scan(sc: &Vec<Cursor>) -> (out: Vec<Cursor>)
    requires
        sc@.len() >= 1,
        sorted_cursors(sc@),
    ensures
        is_normalized(out@),
        is_normalized(sc@) ==> out@ == sc@,
        1 <= out@.len() <= sc@.len(),
        forall|j: int|
            0 <= j < out@.len() ==> holds_pos(sc@, (#[trigger] out@[j]).start) && (
            match out@[j].end {
                Some(e) => holds_pos(sc@, e),
                None => true,
            }),
        forall|i: int| 0 <= i < sc@.len() ==> range_covered(out@, #[trigger] sc@[i]),
        forall|j: int| 0 <= j < out@.len() ==> orientation_from_first(sc@, #[trigger] out@[j]),
        forall|j: int| 0 <= j < out@.len() ==> span_within(sc@, #[trigger] out@[j]),
{
    proof {
        lemma_normalized_strict(sc@);
    }
    let mut out: Vec<Cursor> = Vec::new();
    let c0 = sc[0];
    let mut glo = c0.first();
    let mut ghi = c0.last();
    let mut grev = reversed_exec(&c0);
    let mut k: usize = 1;
    let ghost mut gstart: int = 0;
    proof {
        lemma_holds(sc@, sc@, 0);
    }
    while k < sc.len()
        invariant
            1 <= k <= sc@.len(),
            0 <= gstart < k,
            sorted_cursors(sc@),
            pos_le(glo, ghi),
            glo == cursor_first(sc@[gstart]),
            holds_pos(sc@, glo),
            holds_pos(sc@, ghi),
            is_normalized(out@),
            out@.len() > 0 ==> pos_lt(cursor_last(out@.last()), glo),
            out@.len() <= k - 1,
            forall|i: int|
                0 <= i < out@.len() ==> holds_pos(sc@, (#[trigger] out@[i]).start) && (
                match out@[i].end {
                    Some(e) => holds_pos(sc@, e),
                    None => true,
                }),
            forall|i: int|
                gstart <= i < k ==> pos_le(glo, cursor_first(#[trigger] sc@[i])) && pos_le(
                    cursor_last(sc@[i]),
                    ghi,
                ),
            forall|i: int| 0 <= i < gstart ==> range_covered(out@, #[trigger] sc@[i]),
            grev == is_reversed(sc@[gstart]),
            forall|i: int| 0 <= i < gstart ==> pos_lt(cursor_last(#[trigger] sc@[i]), glo),
            forall|p: Pos|
                #[trigger] between(glo, ghi, p) ==> exists|i: int|
                    gstart <= i < k && covers_point(#[trigger] sc@[i], p),
            forall|j: int| 0 <= j < out@.len() ==> orientation_from_first(sc@, #[trigger] out@[j]),
            forall|j: int| 0 <= j < out@.len() ==> span_within(sc@, #[trigger] out@[j]),
            is_normalized(sc@) ==> out@ == sc@.take(k - 1) && glo == cursor_first(
                sc@[k - 1],
            ) && ghi == cursor_last(sc@[k - 1]) && grev == is_reversed(sc@[k - 1]) && proper(
                sc@[k - 1],
            ),
        decreases sc@.len() - k,
    {
        let c = sc[k];
        let lo = c.first();
        let hi = c.last();
        proof {
            lemma_holds(sc@, sc@, k as int);
            assert(cursor_key_le(sc@[gstart], sc@[k as int]));
        }
        if lo.le(&ghi) {
            // the range overlaps or touches the open group: absorb it
            let ghost ghi0 = ghi;
            if ghi.lt(&hi) {
                ghi = hi;
            }
            proof {
                if is_normalized(sc@) {
                    lemma_normalized_separated(sc@, k - 1, k as int);
                    assert(false);
                }
                // the widened span stays within the members' ranges: any
                // new point lies in the absorbed cursor's range
                assert forall|p: Pos|
                    #[trigger] between(glo, ghi, p) implies exists|i: int|
                    gstart <= i < k + 1 && covers_point(#[trigger] sc@[i], p) by {
                    if pos_le(p, ghi0) {
                        assert(between(glo, ghi0, p));
                        let i0 = choose|i0: int|
                            gstart <= i0 < k && covers_point(sc@[i0], p);
                        assert(covers_point(sc@[i0], p));
                    } else {
                        assert(pos_le(lo, p) && pos_le(p, hi));
                        assert(covers_point(sc@[k as int], p));
                    }
                }
            }
        } else {
            let done = emit_group(glo, ghi, grev);
            proof {
                lemma_emit_shape(glo, ghi, grev);
                if is_normalized(sc@) {
                    assert(done == sc@[k - 1]);
                    assert(out@.push(done) =~= sc@.take(k as int));
                }
            }
            let ghost out0 = out@;
            out.push(done);
            proof {
                lemma_push_covers(out0, done, sc@, gstart, k as int);
                lemma_emit_full(sc@, gstart, k as int, glo, ghi, grev);
                lemma_push_preds(out0, done, sc@);
                gstart = k as int;
            }
            glo = lo;
            ghi = hi;
            grev = reversed_exec(&c);
        }
        k = k + 1;
    }
    let done = emit_group(glo, ghi, grev);
    proof {
        lemma_emit_full(sc@, gstart, sc@.len() as int, glo, ghi, grev);
        lemma_push_preds(out@, done, sc@);
        lemma_scan_finish(sc@, out@, done, glo, ghi, grev, gstart);
    }
    out.push(done);
    out
}

/// Orientation and span facts about the output persist when the merged
/// cursor of one more group is appended.
proof fn lemma_push_preds(out0: Seq<Cursor>, done: Cursor, sc: Seq<Cursor>)
    requires
        forall|j: int| 0 <= j < out0.len() ==> orientation_from_first(sc, #[trigger] out0[j]),
        forall|j: int| 0 <= j < out0.len() ==> span_within(sc, #[trigger] out0[j]),
        orientation_from_first(sc, done),
        span_within(sc, done),
    ensures
        forall|j: int|
            0 <= j < out0.push(done).len() ==> orientation_from_first(
                sc,
                #[trigger] out0.push(done)[j],
            ),
        forall|j: int|
            0 <= j < out0.push(done).len() ==> span_within(sc, #[trigger] out0.push(done)[j]),
{
    let out1 = out0.push(done);
    assert forall|j: int| 0 <= j < out1.len() implies orientation_from_first(
        sc,
        #[trigger] out1[j],
    ) && span_within(sc, out1[j]) by {
        if j < out0.len() {
            assert(out1[j] == out0[j]);
        } else {
            assert(out1[j] == done);
        }
    }
}

/// Closing the last open group: appending its merged cursor keeps the
/// output normalized and accounted for — endpoints held, ranges covered —
/// and, on a normalized input, reproduces the input exactly.
#[verifier::rlimit(100)]
proof fn lemma_scan_finish(
    sc: Seq<Cursor>,
    out0: Seq<Cursor>,
    done: Cursor,
    glo: Pos,
    ghi: Pos,
    grev: bool,
    gstart: int,
)
    requires
        sc.len() >= 1,
        sorted_cursors(sc),
        0 <= gstart < sc.len(),
        pos_le(glo, ghi),
        glo == cursor_first(sc[gstart]),
        holds_pos(sc, glo),
        holds_pos(sc, ghi),
        is_normalized(out0),
        out0.len() > 0 ==> pos_lt(cursor_last(out0.last()), glo),
        out0.len() <= sc.len() - 1,
        forall|i: int|
            0 <= i < out0.len() ==> holds_pos(sc, (#[trigger] out0[i]).start) && (
            match out0[i].end {
                Some(e) => holds_pos(sc, e),
                None => true,
            }),
        forall|i: int|
            gstart <= i < sc.len() ==> pos_le(glo, cursor_first(#[trigger] sc[i])) && pos_le(
                cursor_last(sc[i]),
                ghi,
            ),
        forall|i: int| 0 <= i < gstart ==> range_covered(out0, #[trigger] sc[i]),
        is_normalized(sc) ==> out0 == sc.take(sc.len() - 1) && glo == cursor_first(
            sc[sc.len() - 1],
        ) && ghi == cursor_last(sc[sc.len() - 1]) && grev == is_reversed(sc[sc.len() - 1])
            && proper(sc[sc.len() - 1]),
        done == spec_emit(glo, ghi, grev),
    ensures
        is_normalized(out0.push(done)),
        is_normalized(sc) ==> out0.push(done) == sc,
        1 <= out0.push(done).len() <= sc.len(),
        forall|j: int|
            0 <= j < out0.push(done).len() ==> holds_pos(
                sc,
                (#[trigger] out0.push(done)[j]).start,
            ) && (match out0.push(done)[j].end {
                Some(e) => holds_pos(sc, e),
                None => true,
            }),
        forall|i: int| 0 <= i < sc.len() ==> range_covered(out0.push(done), #[trigger] sc[i]),
{
    lemma_emit_shape(glo, ghi, grev);
    let out1 = out0.push(done);
    assert forall|i: int| 0 <= i < out1.len() implies proper(#[trigger] out1[i]) by {
        if i < out0.len() {
            assert(out1[i] == out0[i]);
        } else {
            assert(out1[i] == done);
        }
    }
    assert forall|i: int| 0 <= i < out1.len() - 1 implies pos_lt(
        cursor_last(#[trigger] out1[i]),
        cursor_first(out1[i + 1]),
    ) by {
        if i + 1 < out0.len() {
            assert(out1[i] == out0[i] && out1[i + 1] == out0[i + 1]);
        } else {
            assert(out1[i] == out0[i] && out1[i + 1] == done);
            assert(out0[i] == out0.last());
        }
    }
    assert forall|j: int| 0 <= j < out1.len() implies holds_pos(
        sc,
        (#[trigger] out1[j]).start,
    ) && (match out1[j].end {
        Some(e) => holds_pos(sc, e),
        None => true,
    }) by {
        if j < out0.len() {
            assert(out1[j] == out0[j]);
        } else {
            assert(out1[j] == done);
            assert(done.start == glo || done.start == ghi);
        }
    }
    lemma_push_covers(out0, done, sc, gstart, sc.len() as int);
    if is_normalized(sc) {
        assert(done == sc[sc.len() - 1]);
        assert(out1 =~= sc);
    }
}

/// A held position of the sorted copy is a held position of the set it
/// came from.
proof fn lemma_holds_transfer(orig: Seq<Cursor>, sc: Seq<Cursor>, p: Pos)
    requires
        holds_pos(sc, p),
        forall|j: int| 0 <= j < sc.len() ==> orig.contains(#[trigger] sc[j]),
    ensures
        holds_pos(orig, p),
{
    let i = choose|i: int| 0 <= i < sc.len() && (sc[i].start == p || sc[i].end == Some(p));
    assert(orig.contains(sc[i]));
    let j = choose|j: int| 0 <= j < orig.len() && orig[j] == sc[i];
    assert(orig[j].start == p || orig[j].end == Some(p));
}

/// Orientation and span facts carry between two sets holding the same
/// cursors.
proof fn lemma_span_transfer(orig: Seq<Cursor>, sc: Seq<Cursor>, g: Cursor)
    requires
        forall|j: int| 0 <= j < sc.len() ==> orig.contains(#[trigger] sc[j]),
        forall|j: int| 0 <= j < orig.len() ==> sc.contains(#[trigger] orig[j]),
        orientation_from_first(sc, g),
        span_within(sc, g),
    ensures
        orientation_from_first(orig, g),
        span_within(orig, g),
{
    assert forall|p: Pos| #[trigger] covers_point(g, p) implies exists|i: int|
        0 <= i < orig.len() && covers_point(#[trigger] orig[i], p) by {
        let i0 = choose|i0: int| 0 <= i0 < sc.len() && covers_point(sc[i0], p);
        assert(orig.contains(sc[i0]));
        let j0 = choose|j0: int| 0 <= j0 < orig.len() && orig[j0] == sc[i0];
        assert(covers_point(orig[j0], p));
    }
    match g.end {
        Some(_) => {
            if exists|i: int|
                0 <= i < sc.len() && range_inside(#[trigger] sc[i], g) && cursor_first(sc[i])
                    == cursor_first(g) && !is_reversed(sc[i]) {
                let i0 = choose|i0: int|
                    0 <= i0 < sc.len() && range_inside(sc[i0], g) && cursor_first(sc[i0])
                        == cursor_first(g) && !is_reversed(sc[i0]);
                assert(orig.contains(sc[i0]));
                let j0 = choose|j0: int| 0 <= j0 < orig.len() && orig[j0] == sc[i0];
                assert(range_inside(#[trigger] orig[j0], g) && cursor_first(orig[j0])
                    == cursor_first(g) && !is_reversed(orig[j0]));
            } else {
                assert forall|j: int|
                    0 <= j < orig.len() && range_inside(#[trigger] orig[j], g) && cursor_first(
                        orig[j],
                    ) == cursor_first(g) implies is_reversed(orig[j]) by {
                    assert(sc.contains(orig[j]));
                    let i1 = choose|i1: int| 0 <= i1 < sc.len() && sc[i1] == orig[j];
                    if !is_reversed(sc[i1]) {
                        assert(range_inside(sc[i1], g) && cursor_first(sc[i1])
                            == cursor_first(g) && !is_reversed(sc[i1]));
                    }
                }
            }
        },
        None => {},
    }
}

impl Cursors {
    /// Collapse every family of cursors whose covered ranges overlap or
    /// touch into one cursor spanning their union; cursors that stand
    /// alone survive unchanged, keeping their orientation.  On a set that
    /// is already normalized this changes nothing.
    pub fn remove_overlaping(&mut self)
        ensures
            merge_post(old(self).0@, final(self).0@),
    {
        let ghost orig = self.0@;
        if self.0.len() == 0 {
            return ;
        }
        proof {
            lemma_normalized_strict(orig);
        }
        let sc = sort_cursors(&self.0);
        let out = merge_scan(&sc);
        proof {
            if is_normalized(orig) {
                assert(sc@ == orig);
            }
            lemma_coverage_transfer(orig, sc@, out@);
            assert forall|j: int| 0 <= j < out@.len() implies orientation_from_first(
                orig,
                #[trigger] out@[j],
            ) && span_within(orig, out@[j]) by {
                lemma_span_transfer(orig, sc@, out@[j]);
            }
            assert forall|j: int| 0 <= j < out@.len() implies holds_pos(
                orig,
                (#[trigger] out@[j]).start,
            ) && (match out@[j].end {
                Some(e) => holds_pos(orig, e),
                None => true,
            }) by {
                lemma_holds_transfer(orig, sc@, out@[j].start);
                match out@[j].end {
                    Some(e) => lemma_holds_transfer(orig, sc@, e),
                    None => {},
                }
            }
        }
        self.0 = out;
    }
}

/// A whole cursor shifted by some rows, each position clamped as
/// `spec_move_row` does.
pub open spec fn spec_shift_rows(t: Seq<char>, c: Cursor, dr: int) -> Cursor {
    Cursor {
        start: spec_move_row(t, c.start, dr),
        end: match c.end {
            Some(e) => Some(spec_move_row(t, e, dr)),
            None => None,
        },
    }
}

/// A whole cursor's stored columns shifted without realization, saturating
/// as `Pos::move_col_raw` does.
pub open spec fn spec_shift_cols(c: Cursor, dc: int) -> Cursor {
    Cursor {
        start: Pos { col: clamp_col(c.start.col + dc) as usize, row: c.start.row },
        end: match c.end {
            Some(e) => Some(Pos { col: clamp_col(e.col + dc) as usize, row: e.row }),
            None => None,
        },
    }
}

/// Whether the event may be dispatched to this cursor: its rows fit the
/// buffer, and a typed character is not a bare line terminator.
pub open spec fn may_dispatch(t: Seq<char>, c: Cursor, ev: KeyEvent) -> bool {
    cursor_valid(t, c) && match ev.key {
        Key::Char(ch) => ch != '\n',
        _ => true,
    }
}

/// The dispatch pass of `process_input`, from cursor `i` on: each cursor in
/// turn is shifted by the carried rows; if it still sits on the reference
/// row it is shifted by the carried columns, else it becomes the reference
/// and the column carry resets; then — if its position fits the buffer — it
/// handles the event, whose shifts join the carried totals (saturating).
/// Returns the final buffer and cursor sequence.
#[verifier::opaque]
pub open spec fn spec_dispatch(
    t: Seq<char>,
    cs: Seq<Cursor>,
    ev: KeyEvent,
    i: int,
    row_ref: int,
    rows: int,
    cols: int,
) -> (Seq<char>, Seq<Cursor>)
    decreases cs.len() - i,
{
    if i < 0 || i >= cs.len() {
        (t, cs)
    } else {
        let r = cs[i].start.row as int;
        let shifted = spec_shift_rows(t, cs[i], rows);
        let c2 = if r <= row_ref {
            spec_shift_cols(shifted, cols)
        } else {
            shifted
        };
        let row_ref2 = if r <= row_ref {
            row_ref
        } else {
            r
        };
        let cols2 = if r <= row_ref {
            cols
        } else {
            0
        };
        if may_dispatch(t, c2, ev) {
            let e = spec_event_step(t, c2, ev);
            spec_dispatch(
                e.0,
                cs.update(i, e.1),
                ev,
                i + 1,
                row_ref2,
                clamp_i128(rows + e.3),
                clamp_i128(cols2 + e.2),
            )
        } else {
            spec_dispatch(t, cs.update(i, c2), ev, i + 1, row_ref2, rows, cols2)
        }
    }
}

/// The arrow's unit direction, for the spawn path of `process_input`.
pub open spec fn spawn_direction(k: Key) -> Option<(int, int)> {
    match k {
        Key::Up => Some((0int, -1int)),
        Key::Down => Some((0int, 1int)),
        Key::Right => Some((1int, 0int)),
        Key::Left => Some((-1int, 0int)),
        _ => None,
    }
}

/// The shifted copy an alt-arrow event spawns from one cursor.
pub open spec fn spec_spawn_one(t: Seq<char>, c: Cursor, dx: int, dy: int) -> Cursor {
    Cursor {
        start: spec_move_row(t, spec_move_col(t, c.start, dx), dy),
        end: match c.end {
            Some(e) => Some(spec_move_row(t, spec_move_col(t, e, dx), dy)),
            None => None,
        },
    }
}

/// The copies an alt-arrow event appends: one per cursor whose position
/// fits the buffer, in order.
pub open spec fn spec_spawned(t: Seq<char>, cs: Seq<Cursor>, dx: int, dy: int) -> Seq<Cursor>
    decreases cs.len(),
{
    if cs.len() == 0 {
        Seq::empty()
    } else {
        spec_spawned(t, cs.drop_last(), dx, dy) + if cursor_valid(t, cs.last()) {
            seq![spec_spawn_one(t, cs.last(), dx, dy)]
        } else {
            Seq::empty()
        }
    }
}

/// A position forced back into the buffer after an event: a row no edit of
/// the event could keep in step is clamped to the last line.
pub open spec fn spec_clamp_pos(t: Seq<char>, p: Pos) -> Pos {
    if p.row < line_count(t) {
        p
    } else {
        Pos { col: p.col, row: (line_count(t) - 1) as usize }
    }
}

pub open spec fn spec_clamp_cursor(t: Seq<char>, c: Cursor) -> Cursor {
    Cursor {
        start: spec_clamp_pos(t, c.start),
        end: match c.end {
            Some(e) => Some(spec_clamp_pos(t, e)),
            None => None,
        },
    }
}

pub open spec fn spec_clamped(t: Seq<char>, cs: Seq<Cursor>) -> Seq<Cursor> {
    Seq::new(cs.len(), |j: int| spec_clamp_cursor(t, cs[j]))
}

/// What the merge pass promises of its result, given what it was handed.
pub open spec fn merge_post(pre: Seq<Cursor>, post: Seq<Cursor>) -> bool {
    &&& is_normalized(post)
    &&& (is_normalized(pre) ==> post == pre)
    &&& (pre.len() >= 1 ==> post.len() >= 1)
    &&& post.len() <= pre.len()
    &&& forall|j: int|
        0 <= j < post.len() ==> holds_pos(pre, (#[trigger] post[j]).start) && (match post[j].end {
            Some(e) => holds_pos(pre, e),
            None => true,
        })
    &&& forall|i: int| 0 <= i < pre.len() ==> range_covered(post, #[trigger] pre[i])
    &&& forall|j: int| 0 <= j < post.len() ==> orientation_from_first(pre, #[trigger] post[j])
    &&& forall|j: int| 0 <= j < post.len() ==> span_within(pre, #[trigger] post[j])
}

/// A signed value clamped into the `i128` range.
pub open spec fn clamp_i128(x: int) -> int {
    if x < i128::MIN {
        i128::MIN as int
    } else if x > i128::MAX {
        i128::MAX as int
    } else {
        x
    }
}

/// Saturating addition for the running propagation totals.
fn sat_add(a: i128, b: i128) -> (r: i128)
    ensures
        r == clamp_i128(a + b),
{
    if b > 0 && a > i128::MAX - b {
        i128::MAX
    } else if b < 0 && a < i128::MIN - b {
        i128::MIN
    } else {
        a + b
    }
}

impl Cursors {
    /// The dispatch pass of an ordinary (non-alt) event: every cursor in
    /// buffer order receives the event with the earlier cursors' shifts
    /// carried forward, exactly as `spec_dispatch` describes.
    #[verifier::loop_isolation(false)]
    #[verifier::rlimit(100)]
    fn dispatch_all(&mut self, keyboard_data: &KeyEvent, rope: &mut ropey::Rope)
        ensures
            ({
                let d = spec_dispatch(
                    rope_text(*old(rope)),
                    old(self).0@,
                    *keyboard_data,
                    0,
                    0,
                    0,
                    0,
                );
                rope_text(*final(rope)) == d.0 && final(self).0@ == d.1
            }),
            final(self).0@.len() == old(self).0@.len(),
    {
        let ghost s0 = rope_text(*rope);
        let ghost cs0 = self.0@;
        let ghost ev = *keyboard_data;
        let ghost n0 = self.0@.len();
        let mut row_ref: usize = 0;
        let mut new_rows: i128 = 0;
        let mut new_chars: i128 = 0;
        let mut i: usize = 0;
        while i < self.0.len()
            invariant
                i <= self.0.len(),
                self.0@.len() == n0,
                spec_dispatch(s0, cs0, ev, 0, 0, 0, 0) == spec_dispatch(
                    rope_text(*rope),
                    self.0@,
                    ev,
                    i as int,
                    row_ref as int,
                    new_rows as int,
                    new_chars as int,
                ),
            decreases self.0.len() - i,
        {
            let ghost t_pre = rope_text(*rope);
            let ghost cs_pre = self.0@;
            let ghost rr_pre = row_ref as int;
            let ghost nr_pre = new_rows as int;
            let ghost nc_pre = new_chars as int;
            let mut c = self.0[i];
            let r = c.start.row;
            if new_rows != 0 {
                c.start.move_row(new_rows, rope);
                match c.end {
                    Some(mut e) => {
                        e.move_row(new_rows, rope);
                        c.end = Some(e);
                    },
                    None => {},
                }
            }
            proof {
                assert(c == spec_shift_rows(t_pre, cs_pre[i as int], nr_pre));
            }
            if r <= row_ref {
                if new_chars != 0 {
                    c.start.move_col_raw(new_chars);
                    match c.end {
                        Some(mut e) => {
                            e.move_col_raw(new_chars);
                            c.end = Some(e);
                        },
                        None => {},
                    }
                }
                proof {
                    assert(c == spec_shift_cols(
                        spec_shift_rows(t_pre, cs_pre[i as int], nr_pre),
                        nc_pre,
                    ));
                }
            } else {
                row_ref = r;
                new_chars = 0;
            }
            let ghost c2 = c;
            let lines = rope_len_lines(rope);
            let ok = c.start.row < lines && (match &c.end {
                Some(e) => e.row < lines,
                None => true,
            }) && (match keyboard_data.key {
                Key::Char(ch) => ch != '\n',
                _ => true,
            });
            proof {
                assert(ok == may_dispatch(t_pre, c2, ev));
            }
            if ok {
                let (dc, dr) = c.handle_input(keyboard_data, rope);
                proof {
                    lemma_event_step_determined(t_pre, c2, ev, rope_text(*rope), c, (dc, dr));
                }
                new_rows = sat_add(new_rows, dr);
                new_chars = sat_add(new_chars, dc);
            }
            self.0.set(i, c);
            proof {
                reveal(spec_dispatch);
                assert(spec_dispatch(t_pre, cs_pre, ev, i as int, rr_pre, nr_pre, nc_pre)
                    == spec_dispatch(
                    rope_text(*rope),
                    self.0@,
                    ev,
                    i as int + 1,
                    row_ref as int,
                    new_rows as int,
                    new_chars as int,
                ));
            }
            i = i + 1;
        }
        proof {
            reveal(spec_dispatch);
        }
    }

    /// The spawn pass of an alt-arrow event: one shifted copy per cursor
    /// whose position fits the buffer is appended, as `spec_spawned`
    /// describes; the buffer is untouched.
    #[verifier::loop_isolation(false)]
    #[verifier::rlimit(100)]
    fn spawn_all(&mut self, dx: i128, dy: i128, rope: &ropey::Rope)
        ensures
            final(self).0@ == old(self).0@ + spec_spawned(
                rope_text(*rope),
                old(self).0@,
                dx as int,
                dy as int,
            ),
    {
        let ghost s0 = rope_text(*rope);
        let ghost cs0 = self.0@;
        let mut spawned: Vec<Cursor> = Vec::new();
        let mut i: usize = 0;
        while i < self.0.len()
            invariant
                i <= self.0.len(),
                self.0@ == cs0,
                spawned@ == spec_spawned(s0, cs0.take(i as int), dx as int, dy as int),
            decreases self.0.len() - i,
        {
            let ghost pre = cs0.take(i as int);
            let ghost now = cs0.take(i as int + 1);
            let mut cnew = self.0[i];
            let lines = rope_len_lines(rope);
            let ok = cnew.start.row < lines && match &cnew.end {
                Some(e) => e.row < lines,
                None => true,
            };
            if ok {
                cnew.start.move_col(dx, rope);
                cnew.start.move_row(dy, rope);
                match cnew.end {
                    Some(mut e) => {
                        e.move_col(dx, rope);
                        e.move_row(dy, rope);
                        cnew.end = Some(e);
                    },
                    None => {},
                }
                spawned.push(cnew);
                proof {
                    assert(cnew == spec_spawn_one(s0, cs0[i as int], dx as int, dy as int));
                }
            }
            proof {
                assert(now.drop_last() =~= pre);
                assert(now.last() == cs0[i as int]);
            }
            i = i + 1;
        }
        self.0.append(&mut spawned);
        proof {
            assert(cs0.take(cs0.len() as int) =~= cs0);
        }
    }

    /// Force every row back into the buffer: a position no edit of the
    /// event could keep in step is clamped to the last line.
    #[verifier::loop_isolation(false)]
    #[verifier::rlimit(100)]
    fn clamp_rows(&mut self, rope: &ropey::Rope)
        ensures
            final(self).0@ == spec_clamped(rope_text(*rope), old(self).0@),
            cursors_valid(rope_text(*rope), final(self).0@),
    {
        let ghost t1 = rope_text(*rope);
        let ghost cs1 = self.0@;
        let lines = rope_len_lines(rope);
        let mut i: usize = 0;
        while i < self.0.len()
            invariant
                i <= self.0.len(),
                self.0@.len() == cs1.len(),
                forall|j: int| 0 <= j < i ==> self.0@[j] == spec_clamp_cursor(t1, #[trigger] cs1[j]),
                forall|j: int| i <= j < cs1.len() ==> self.0@[j] == #[trigger] cs1[j],
            decreases self.0.len() - i,
        {
            let mut c = self.0[i];
            if c.start.row >= lines {
                c.start.row = lines - 1;
            }
            match c.end {
                Some(mut e) => {
                    if e.row >= lines {
                        e.row = lines - 1;
                    }
                    c.end = Some(e);
                },
                None => {},
            }
            proof {
                assert(c == spec_clamp_cursor(t1, cs1[i as int]));
            }
            self.0.set(i, c);
            i = i + 1;
        }
        proof {
            assert(self.0@ =~= spec_clamped(t1, cs1));
            assert forall|j: int| 0 <= j < self.0@.len() implies cursor_valid(
                t1,
                #[trigger] self.0@[j],
            ) by {
                assert(self.0@[j] == spec_clamp_cursor(t1, cs1[j]));
            }
        }
    }

    /// Apply one input event to the whole set.
    ///
    /// An event with the alt modifier and an arrow key spawns a copy of
    /// every cursor, shifted one step in the arrow's direction, and leaves
    /// the buffer alone; alt with any other key does nothing at all.  Any
    /// other event runs the dispatch pass of `spec_dispatch`: each cursor
    /// in turn is shifted by the carried row and same-row column totals of
    /// the earlier cursors' edits and then handles the event itself; a
    /// cursor whose position does not fit the buffer when its turn comes
    /// takes no part.  Afterwards every row is forced back into the buffer
    /// and the merge pass restores the set's invariant.
    pub fn process_input(&mut self, keyboard_data: &KeyEvent, rope: &mut ropey::Rope)
        ensures
            ({
                let s = rope_text(*old(rope));
                let t = rope_text(*final(rope));
                let cs0 = old(self).0@;
                if keyboard_data.alt {
                    match spawn_direction(keyboard_data.key) {
                        Some(d) => t == s && merge_post(
                            spec_clamped(s, cs0 + spec_spawned(s, cs0, d.0, d.1)),
                            final(self).0@,
                        ),
                        None => t == s && *final(self) == *old(self),
                    }
                } else {
                    let disp = spec_dispatch(s, cs0, *keyboard_data, 0, 0, 0, 0);
                    t == disp.0 && merge_post(spec_clamped(t, disp.1), final(self).0@)
                }
            }),
            !(keyboard_data.alt && spawn_direction(keyboard_data.key) is None) ==> {
                &&& is_normalized(final(self).0@)
                &&& cursors_valid(rope_text(*final(rope)), final(self).0@)
                &&& (old(self).0@.len() >= 1 ==> final(self).0@.len() >= 1)
            },
    {
        let ghost ev = *keyboard_data;
        if keyboard_data.alt {
            let dir: Option<(i128, i128)> = match keyboard_data.key {
                Key::Up => Some((0, -1)),
                Key::Down => Some((0, 1)),
                Key::Right => Some((1, 0)),
                Key::Left => Some((-1, 0)),
                _ => None,
            };
            let (dx, dy) = match dir {
                Some(d) => d,
                None => {
                    return ;
                },
            };
            proof {
                assert(spawn_direction(ev.key) == Some((dx as int, dy as int)));
            }
            self.spawn_all(dx, dy, rope);
        } else {
            self.dispatch_all(keyboard_data, rope);
        }
        self.clamp_rows(rope);
        let ghost pre = self.0@;
        let ghost t1 = rope_text(*rope);
        self.remove_overlaping();
        proof {
            reveal(merge_post);
            lemma_valid_after_merge(t1, pre, self.0@);
        }
    }
}

/// A merged set whose positions all come from a row-valid set is row-valid.
proof fn lemma_valid_after_merge(t: Seq<char>, pre: Seq<Cursor>, post: Seq<Cursor>)
    requires
        cursors_valid(t, pre),
        forall|j: int|
            0 <= j < post.len() ==> holds_pos(pre, (#[trigger] post[j]).start) && (
            match post[j].end {
                Some(e) => holds_pos(pre, e),
                None => true,
            }),
    ensures
        cursors_valid(t, post),
{
    assert forall|j: int| 0 <= j < post.len() implies cursor_valid(t, #[trigger] post[j]) by {
        let p = post[j].start;
        let ip = choose|ip: int|
            0 <= ip < pre.len() && (pre[ip].start == p || pre[ip].end == Some(p));
        match post[j].end {
            Some(e) => {
                let ie = choose|ie: int|
                    0 <= ie < pre.len() && (pre[ie].start == e || pre[ie].end == Some(e));
                assert(pos_valid(t, e));
            },
            None => {},
        }
        assert(pos_valid(t, p));
    }
}

impl Cursors {
    /// Every endpoint of every cursor, as markers sorted in buffer order —
    /// the view a renderer walks to paint carets and selection overlays.
    #[verifier::loop_isolation(false)]
    #[verifier::rlimit(100)]
    pub fn sorted(&self) -> (r: Vec<SelectionMarker>)
        ensures
            r@.len() == 2 * self.0@.len(),
            sorted_markers(r@),
            r@.to_multiset() == markers_of(self.0@).to_multiset(),
    {
        let mut v: Vec<SelectionMarker> = Vec::new();
        let mut i: usize = 0;
        while i < self.0.len()
            invariant
                i <= self.0.len(),
                v@ == markers_of(self.0@.take(i as int)),
                v@.len() == 2 * i,
            decreases self.0.len() - i,
        {
            let c = self.0[i];
            v.push(SelectionMarker::new(c.start, i, SelectionMarkerType::Start));
            match &c.end {
                Some(e) => v.push(SelectionMarker::new(*e, i, SelectionMarkerType::End)),
                None => v.push(SelectionMarker::new(c.start, i, SelectionMarkerType::End)),
            }
            proof {
                let pre = self.0@.take(i as int);
                let now = self.0@.take(i as int + 1);
                assert(now.drop_last() =~= pre);
                assert(now.last() == self.0@[i as int]);
                assert(v@ =~= markers_of(pre) + cursor_markers(self.0@[i as int], i));
            }
            i = i + 1;
        }
        proof {
            assert(self.0@.take(self.0@.len() as int) =~= self.0@);
        }
        let mut r: Vec<SelectionMarker> = Vec::new();
        let mut k: usize = 0;
        proof {
            assert(v@.take(0) =~= Seq::<SelectionMarker>::empty());
        }
        while k < v.len()
            invariant
                k <= v@.len(),
                r@.len() == k,
                sorted_markers(r@),
                r@.to_multiset() == v@.take(k as int).to_multiset(),
            decreases v@.len() - k,
        {
            let m = v[k];
            let mut p: usize = 0;
            #[verifier::loop_isolation(true)]
            loop
                invariant_except_break
                    p <= r@.len(),
                    forall|i: int| 0 <= i < p ==> marker_le(#[trigger] r@[i], m),
                ensures
                    p <= r@.len(),
                    forall|i: int| 0 <= i < p ==> marker_le(#[trigger] r@[i], m),
                    p < r@.len() ==> !marker_le(r@[p as int], m),
                decreases r@.len() - p,
            {
                if p >= r.len() {
                    break ;
                }
                if !marker_le_exec(&r[p], &m) {
                    break ;
                }
                p = p + 1;
            }
            let ghost r0 = r@;
            r.insert(p, m);
            proof {
                r0.insert_ensures(p as int, m);
                assert((p as int) < r0.len() ==> marker_le(m, r0[p as int]));
                assert forall|i: int, j: int| 0 <= i < j < r@.len() implies marker_le(
                    #[trigger] r@[i],
                    #[trigger] r@[j],
                ) by {
                    if j < p {
                        assert(r@[i] == r0[i] && r@[j] == r0[j]);
                    } else if i < p && j == p {
                        assert(r@[i] == r0[i] && r@[j] == m);
                    } else if i < p && j > p {
                        assert(r@[i] == r0[i] && r@[j] == r0[j - 1]);
                    } else if i == p && j > p {
                        assert(r@[i] == m && r@[j] == r0[j - 1]);
                        assert(marker_le(r0[p as int], r0[j - 1]));
                    } else {
                        assert(r@[i] == r0[i - 1] && r@[j] == r0[j - 1]);
                    }
                }
                lemma_insert_to_multiset(r0, p as int, m);
                broadcast use vstd::seq_lib::group_to_multiset_ensures;

                assert(v@.take(k as int + 1).drop_last() =~= v@.take(k as int));
                assert(v@.take(k as int + 1) =~= v@.take(k as int).push(m));
            }
            k = k + 1;
        }
        proof {
            assert(v@.take(v@.len() as int) =~= v@);
        }
        r
    }
}

impl Default for Cursors {
    /// One bare caret at the top-left of the buffer.
    fn default() -> (c: Self)
        ensures
            c.0@.len() == 1,
            c.0@[0].start == (Pos { col: 0, row: 0 }),
            c.0@[0].end is None,
    {
        Cursors(vec![Cursor::default()])
    }
}

/// Whatever `first` and `last` pick is a position the set holds.
proof fn lemma_holds(orig: Seq<Cursor>, sc: Seq<Cursor>, k: int)
    requires
        0 <= k < sc.len(),
        forall|j: int| 0 <= j < sc.len() ==> orig.contains(#[trigger] sc[j]),
    ensures
        holds_pos(orig, cursor_first(sc[k])),
        holds_pos(orig, cursor_last(sc[k])),
{
    let i = choose|i: int| 0 <= i < orig.len() && orig[i] == sc[k];
    assert(orig[i].start == cursor_first(sc[k]) || orig[i].end == Some(cursor_first(sc[k])));
    assert(orig[i].start == cursor_last(sc[k]) || orig[i].end == Some(cursor_last(sc[k])));
}

/// Which endpoint of its owning cursor a marker stands for.
#[derive(Debug, Clone, Copy, PartialEq, Eq, Structural)]
pub enum SelectionMarkerType {
    End,
    Start,
}

/// An ephemeral view of one cursor endpoint, used to walk all endpoints of
/// a set in buffer order: each cursor contributes a `Start` marker at its
/// caret and an `End` marker at its anchor (both at the caret for a bare
/// caret), tagged with the cursor's index.
#[derive(Debug, Clone, Copy, PartialEq, Eq, Structural)]
pub struct SelectionMarker {
    pub pos: Pos,
    pub marker_type: SelectionMarkerType,
    pub id: usize,
}

impl SelectionMarker {
    pub fn new(pos: Pos, id: usize, selection_type: SelectionMarkerType) -> (m: SelectionMarker)
        ensures
            m.pos == pos,
            m.id == id,
            m.marker_type == selection_type,
    {
        SelectionMarker { pos, id, marker_type: selection_type }
    }

    /// Whether two markers are the two endpoints of one cursor.
    pub fn is_matching(&self, other: &SelectionMarker) -> (r: bool)
        ensures
            r == (self.marker_type != other.marker_type && self.id == other.id),
    {
        self.marker_type != other.marker_type && self.id == other.id
    }
}

/// Marker order: by position; at one position an end marker comes before a
/// start marker, so a walker sees a range close before the next one opens.
pub open spec fn marker_le(a: SelectionMarker, b: SelectionMarker) -> bool {
    ||| pos_lt(a.pos, b.pos)
    ||| (a.pos == b.pos && (a.marker_type is End || b.marker_type is Start))
}

pub open spec fn sorted_markers(s: Seq<SelectionMarker>) -> bool {
    forall|i: int, j: int| 0 <= i < j < s.len() ==> marker_le(s[i], s[j])
}

/// The two markers of one cursor.
pub open spec fn cursor_markers(c: Cursor, id: usize) -> Seq<SelectionMarker> {
    match c.end {
        Some(e) => seq![
            SelectionMarker { pos: c.start, marker_type: SelectionMarkerType::Start, id },
            SelectionMarker { pos: e, marker_type: SelectionMarkerType::End, id },
        ],
        None => seq![
            SelectionMarker { pos: c.start, marker_type: SelectionMarkerType::Start, id },
            SelectionMarker { pos: c.start, marker_type: SelectionMarkerType::End, id },
        ],
    }
}

/// All markers of a cursor set, tagged with their cursors' indices.
pub open spec fn markers_of(cs: Seq<Cursor>) -> Seq<SelectionMarker>
    decreases cs.len(),
{
    if cs.len() == 0 {
        Seq::empty()
    } else {
        markers_of(cs.drop_last()) + cursor_markers(cs.last(), (cs.len() - 1) as usize)
    }
}

/// Exec mirror of `marker_le`.
fn marker_le_exec(a: &SelectionMarker, b: &SelectionMarker) -> (r: bool)
    ensures
        r == marker_le(*a, *b),
{
    if a.pos.lt(&b.pos) {
        true
    } else if a.pos.row == b.pos.row && a.pos.col == b.pos.col {
        match (a.marker_type, b.marker_type) {
            (SelectionMarkerType::End, _) => true,
            (SelectionMarkerType::Start, SelectionMarkerType::Start) => true,
            (SelectionMarkerType::Start, SelectionMarkerType::End) => false,
        }
    } else {
        false
    }
}

/// Inserting anywhere adds one occurrence to a sequence's multiset.
proof fn lemma_insert_to_multiset<A>(s: Seq<A>, k: int, m: A)
    requires
        0 <= k <= s.len(),
    ensures
        s.insert(k, m).to_multiset() =~= s.to_multiset().insert(m),
{
    broadcast use vstd::seq_lib::group_to_multiset_ensures;
    broadcast use vstd::multiset::group_multiset_axioms;

    let a = s.subrange(0, k);
    let b = s.subrange(k, s.len() as int);
    assert(s.insert(k, m) == a.push(m) + b);
    vstd::seq_lib::lemma_multiset_commutative(a.push(m), b);
    vstd::seq_lib::lemma_multiset_commutative(a, b);
    assert(s =~= a + b);
    assert(a.push(m).to_multiset() =~= a.to_multiset().insert(m));
}

/// The merged cursor spans exactly the group, is proper, and keeps the
/// group's orientation.
proof fn lemma_emit_shape(glo: Pos, ghi: Pos, grev: bool)
    requires
        pos_le(glo, ghi),
    ensures
        cursor_first(spec_emit(glo, ghi, grev)) == glo,
        cursor_last(spec_emit(glo, ghi, grev)) == ghi,
        proper(spec_emit(glo, ghi, grev)),
        spec_emit(glo, ghi, grev).start == glo || spec_emit(glo, ghi, grev).start == ghi,
        match spec_emit(glo, ghi, grev).end {
            Some(e) => e == glo || e == ghi,
            None => true,
        },
{
}

} // verus!
