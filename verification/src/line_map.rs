//! A byte-addressable, line-indexed text store.
//!
//! The document text is kept as a sequence of lines; every line keeps its
//! line-ending byte, and only the final line may lack one.  The store
//! supports point/offset conversion and splice edits whose result is, by
//! contract, the direct byte splice on the concatenated text.

use vstd::prelude::*;
use vstd::slice::{slice_subrange, slice_to_vec};

use crate::point::Point;

verus! {

/// The line-ending byte recognised by the store.
pub const NEWLINE: u8 = 10;

/// The number of addressable rows of a line decomposition: one more than
/// the line count when the last line ends in a newline (the trailing
/// virtual row), at least one for an empty text.
pub open spec fn spec_row_count(ls: Seq<Seq<u8>>) -> int {
    if ls.len() == 0 {
        1
    } else if ls.last().len() > 0 && ls.last().last() == NEWLINE && ls.len() < usize::MAX {
        ls.len() + 1int
    } else {
        ls.len() as int
    }
}

/// Concatenation of a sequence of byte sequences.
pub open spec fn concat_bytes(ls: Seq<Seq<u8>>) -> Seq<u8>
    decreases ls.len(),
{
    if ls.len() == 0 {
        Seq::empty()
    } else {
        ls[0] + concat_bytes(ls.skip(1))
    }
}

/// The views of a sequence of byte vectors.
pub open spec fn vecs_view(v: Seq<Vec<u8>>) -> Seq<Seq<u8>> {
    v.map_values(|l: Vec<u8>| l@)
}

/// A well-formed stored line: non-empty, with no interior newline byte.
pub open spec fn is_line(l: Seq<u8>) -> bool {
    l.len() > 0 && forall|j: int| 0 <= j < l.len() - 1 ==> l[j] != NEWLINE
}

/// The row/column position reached after walking `o` bytes into `ls`,
/// starting at row `row`.
pub open spec fn point_at_in(ls: Seq<Seq<u8>>, o: int, row: int) -> Point
    decreases ls.len(),
{
    if ls.len() == 0 {
        Point { row: row as usize, column: 0 }
    } else if o < ls[0].len() {
        Point { row: row as usize, column: o as usize }
    } else {
        point_at_in(ls.skip(1), o - ls[0].len(), row + 1)
    }
}

/// The views of pushed vectors.
pub proof fn lemma_vecs_view_push(v: Seq<Vec<u8>>, x: Vec<u8>)
    ensures
        vecs_view(v.push(x)) == vecs_view(v).push(x@),
{
    assert(vecs_view(v.push(x)) =~= vecs_view(v).push(x@));
}

/// The views of appended vector sequences.
pub proof fn lemma_vecs_view_append(a: Seq<Vec<u8>>, b: Seq<Vec<u8>>)
    ensures
        vecs_view(a + b) == vecs_view(a) + vecs_view(b),
{
    assert(vecs_view(a + b) =~= vecs_view(a) + vecs_view(b));
}

pub proof fn lemma_concat_snoc(ls: Seq<Seq<u8>>, l: Seq<u8>)
    ensures
        concat_bytes(ls.push(l)) == concat_bytes(ls) + l,
    decreases ls.len(),
{
    let p = ls.push(l);
    if ls.len() == 0 {
        assert(p.skip(1) =~= Seq::<Seq<u8>>::empty());
        assert(concat_bytes(p.skip(1)) == Seq::<u8>::empty());
        assert(p[0] == l);
        assert(concat_bytes(p) == l + Seq::<u8>::empty());
        assert(concat_bytes(ls) == Seq::<u8>::empty());
        assert(l + Seq::<u8>::empty() =~= Seq::<u8>::empty() + l);
    } else {
        assert(p.skip(1) =~= ls.skip(1).push(l));
        lemma_concat_snoc(ls.skip(1), l);
        assert(concat_bytes(p) == p[0] + concat_bytes(p.skip(1)));
        assert(p[0] == ls[0]);
        assert(concat_bytes(p.skip(1)) == concat_bytes(ls.skip(1)) + l);
        assert(ls[0] + (concat_bytes(ls.skip(1)) + l) =~= (ls[0] + concat_bytes(ls.skip(1)))
            + l);
        assert(concat_bytes(ls) == ls[0] + concat_bytes(ls.skip(1)));
    }
}

pub proof fn lemma_concat_append(a: Seq<Seq<u8>>, b: Seq<Seq<u8>>)
    ensures
        concat_bytes(a + b) == concat_bytes(a) + concat_bytes(b),
    decreases b.len(),
{
    if b.len() == 0 {
        assert(a + b =~= a);
        assert(concat_bytes(a + b) =~= concat_bytes(a) + concat_bytes(b));
    } else {
        let b0 = b.subrange(0, b.len() - 1);
        let bl = b[b.len() - 1];
        assert(b =~= b0.push(bl));
        assert(a + b =~= (a + b0).push(bl));
        lemma_concat_snoc(a + b0, bl);
        lemma_concat_append(a, b0);
        lemma_concat_snoc(b0, bl);
        assert((concat_bytes(a) + concat_bytes(b0)) + bl =~= concat_bytes(a) + (concat_bytes(b0)
            + bl));
    }
}

/// Splitting a sequence of lines at `k` splits the concatenation.
pub proof fn lemma_concat_split(ls: Seq<Seq<u8>>, k: int)
    requires
        0 <= k <= ls.len(),
    ensures
        concat_bytes(ls) == concat_bytes(ls.take(k)) + concat_bytes(ls.skip(k)),
{
    assert(ls =~= ls.take(k) + ls.skip(k));
    lemma_concat_append(ls.take(k), ls.skip(k));
}

pub proof fn lemma_concat_take_succ(ls: Seq<Seq<u8>>, k: int)
    requires
        0 <= k < ls.len(),
    ensures
        concat_bytes(ls.take(k + 1)) == concat_bytes(ls.take(k)) + ls[k],
{
    assert(ls.take(k + 1) =~= ls.take(k).push(ls[k]));
    lemma_concat_snoc(ls.take(k), ls[k]);
}

/// The first newline byte at or after `j`.
pub open spec fn first_newline_at(text: Seq<u8>, j: int) -> Option<int>
    decreases text.len() - j,
{
    if j < 0 || j >= text.len() {
        None
    } else if text[j] == NEWLINE {
        Some(j)
    } else {
        first_newline_at(text, j + 1)
    }
}

/// The unique decomposition of a text into stored lines: each line runs
/// up to and including the next newline; a trailing segment without one
/// is the final line.
pub open spec fn spec_lines_of(text: Seq<u8>) -> Seq<Seq<u8>>
    decreases text.len(),
{
    if text.len() == 0 {
        Seq::empty()
    } else {
        let k = first_newline_at(text, 0);
        if k is Some && 0 <= k->Some_0 < text.len() {
            seq![text.take(k->Some_0 + 1)] + spec_lines_of(text.skip(k->Some_0 + 1))
        } else {
            seq![text]
        }
    }
}

/// Where the newline search lands when misses and a hit are known.
proof fn lemma_first_newline_pin(text: Seq<u8>, j: int, k: int)
    requires
        0 <= j <= k <= text.len(),
        forall|t: int| j <= t < k ==> text[t] != NEWLINE,
        k < text.len() ==> text[k] == NEWLINE,
    ensures
        k < text.len() ==> first_newline_at(text, j) == Some(k),
        k == text.len() ==> first_newline_at(text, j) is None,
    decreases k - j,
{
    if j < k {
        lemma_first_newline_pin(text, j + 1, k);
    }
}

/// A line structure is the unique decomposition of its concatenation.
pub proof fn lemma_lines_of_concat(ls: Seq<Seq<u8>>)
    requires
        forall|i: int| 0 <= i < ls.len() ==> is_line(#[trigger] ls[i]),
        forall|i: int| 0 <= i < ls.len() - 1 ==> (#[trigger] ls[i]).last() == NEWLINE,
    ensures
        spec_lines_of(concat_bytes(ls)) == ls,
    decreases ls.len(),
{
    let text = concat_bytes(ls);
    if ls.len() == 0 {
        assert(spec_lines_of(text) =~= ls);
    } else {
        assert(text == ls[0] + concat_bytes(ls.skip(1)));
        let head = ls[0];
        if ls.len() > 1 || head.last() == NEWLINE {
            // The head line ends with a newline, and it is the first one.
            assert(head.last() == NEWLINE);
            let k = head.len() - 1;
            assert(text[k] == NEWLINE);
            assert(forall|t: int| 0 <= t < k ==> text[t] == head[t] && text[t] != NEWLINE);
            lemma_first_newline_pin(text, 0, k);
            assert(text.take(k + 1) =~= head);
            assert(text.skip(k + 1) =~= concat_bytes(ls.skip(1)));
            assert(forall|i: int| 0 <= i < ls.skip(1).len() ==> ls.skip(1)[i] == ls[i + 1]);
            lemma_lines_of_concat(ls.skip(1));
            assert(spec_lines_of(text) =~= ls);
        } else {
            // A single line without a newline: the whole text is one line.
            assert(forall|t: int| 0 <= t < text.len() ==> text[t] == head[t]);
            assert(forall|t: int| 0 <= t < text.len() ==> text[t] != NEWLINE);
            lemma_first_newline_pin(text, 0, text.len() as int);
            assert(spec_lines_of(text) =~= seq![head]);
            assert(ls =~= seq![head]);
        }
    }
}

/// The byte offset of a point within a text, over its unique line
/// decomposition.
pub open spec fn text_offset(text: Seq<u8>, p: Point) -> int {
    concat_bytes(spec_lines_of(text).take(p.row as int)).len() + p.column
}

/// A splice range addresses the text: both rows exist, both columns lie
/// within their lines, the points are ordered, and the result fits.
pub open spec fn splice_applies(text: Seq<u8>, start: Point, end: Point, add_len: int) -> bool {
    let ls = spec_lines_of(text);
    &&& start.row < ls.len()
    &&& end.row < ls.len()
    &&& start.column <= ls[start.row as int].len()
    &&& end.column <= ls[end.row as int].len()
    &&& start.spec_le(end)
    &&& text.len() + add_len <= usize::MAX
}

/// The direct byte splice of `ins` over the range between two points.
pub open spec fn spec_splice(text: Seq<u8>, start: Point, end: Point, ins: Seq<u8>) -> Seq<u8> {
    text.take(text_offset(text, start)) + ins + text.skip(text_offset(text, end))
}

/// The text of a document, kept line by line.
pub struct LineMap {
    lines: Vec<Vec<u8>>,
}

impl LineMap {
    /// The stored lines, as byte sequences.
    pub closed spec fn lines_seq(&self) -> Seq<Seq<u8>> {
        vecs_view(self.lines@)
    }

    /// The full document text: the concatenation of all lines.
    pub open spec fn spec_text(&self) -> Seq<u8> {
        concat_bytes(self.lines_seq())
    }

    /// Well-formedness: lines are non-empty and newline-free inside, every
    /// line but the last ends with a newline, and the text fits in memory.
    pub open spec fn wf(&self) -> bool {
        &&& forall|i: int| 0 <= i < self.lines_seq().len() ==> is_line(#[trigger] self.lines_seq()[i])
        &&& forall|i: int|
            0 <= i < self.lines_seq().len() - 1 ==> (#[trigger] self.lines_seq()[i]).last()
                == NEWLINE
        &&& self.spec_text().len() <= usize::MAX
    }

    /// A point that addresses a byte boundary of the stored text: within a
    /// line, at a line's end, or the virtual point one past the last line.
    pub open spec fn valid_point(&self, p: Point) -> bool {
        ||| (p.row < self.lines_seq().len() && p.column <= self.lines_seq()[p.row as int].len())
        ||| (p.row == self.lines_seq().len() && p.column == 0)
    }

    /// The byte offset of a point.
    pub open spec fn spec_offset_at(&self, p: Point) -> int {
        concat_bytes(self.lines_seq().take(p.row as int)).len() + p.column
    }

    /// The point reached by walking `o` bytes into the text.
    pub open spec fn spec_point_at(&self, o: int) -> Point {
        point_at_in(self.lines_seq(), o, 0)
    }

    /// A point that lies strictly inside a line, or the virtual end point:
    /// exactly the points that a round trip through offsets preserves.
    pub open spec fn in_range_point(&self, p: Point) -> bool {
        ||| (p.row < self.lines_seq().len() && p.column < self.lines_seq()[p.row as int].len())
        ||| (p.row == self.lines_seq().len() && p.column == 0)
    }

    /// Round trip: converting an in-range point to its byte offset and back
    /// yields the same point.
    pub proof fn lemma_point_offset_roundtrip(&self, p: Point)
        requires
            self.wf(),
            self.in_range_point(p),
        ensures
            self.spec_point_at(self.spec_offset_at(p)) == p,
    {
        self.lemma_lines_bounded();
        lemma_point_at_of_offset(self.lines_seq(), p);
    }

    /// Round trip: converting an in-range offset to a point and back yields
    /// the same offset, and the point is in range.
    pub proof fn lemma_offset_point_roundtrip(&self, o: int)
        requires
            self.wf(),
            0 <= o <= self.spec_text().len(),
        ensures
            self.in_range_point(self.spec_point_at(o)),
            self.valid_point(self.spec_point_at(o)),
            self.spec_offset_at(self.spec_point_at(o)) == o,
    {
        self.lemma_lines_bounded();
        lemma_offset_of_point_at(self.lines_seq(), o);
    }

    /// The stored lines are the unique decomposition of the text.
    pub proof fn lemma_lines_determined(&self)
        requires
            self.wf(),
        ensures
            self.lines_seq() == spec_lines_of(self.spec_text()),
    {
        lemma_lines_of_concat(self.lines_seq());
    }

    /// A well-formed map has no more lines than text bytes.
    proof fn lemma_lines_bounded(&self)
        requires
            self.wf(),
        ensures
            self.lines_seq().len() <= usize::MAX,
    {
        assert(forall|i: int|
            0 <= i < self.lines_seq().len() ==> (#[trigger] self.lines_seq()[i]).len() > 0);
        lemma_concat_len_ge(self.lines_seq());
    }

    /// Build a line map from raw text.
    pub fn new(text: &[u8]) -> (r: LineMap)
        ensures
            r.wf(),
            r.spec_text() == text@,
    {
        LineMap { lines: split_into_lines(text) }
    }

    /// The text of the given row, line ending included.
    pub fn line_text_with_ending(&self, line: usize) -> (r: Option<&Vec<u8>>)
        ensures
            line < self.lines_seq().len() ==> (r matches Some(l) && l == &self.view_line(line)
                && l@ == self.lines_seq()[line as int]),
            line >= self.lines_seq().len() ==> r is None,
    {
        if line < self.lines.len() {
            Some(&self.lines[line])
        } else {
            None
        }
    }

    /// The stored line at `row` (spec helper for `line_text_with_ending`).
    pub closed spec fn view_line(&self, row: usize) -> Vec<u8>
        recommends
            row < self.lines_seq().len(),
    {
        self.lines@[row as int]
    }

    /// The number of stored lines.
    pub fn line_count(&self) -> (r: usize)
        ensures
            r == self.lines_seq().len(),
    {
        self.lines.len()
    }

    /// The number of addressable rows: a trailing line that ends with a
    /// newline opens an empty virtual row after it, and an empty
    /// document still has one row.
    pub fn row_count(&self) -> (r: usize)
        requires
            self.wf(),
        ensures
            r == spec_row_count(self.lines_seq()),
            r >= self.lines_seq().len(),
            r >= 1,
    {
        let n = self.lines.len();
        if n == 0 {
            return 1;
        }
        let last = &self.lines[n - 1];
        proof {
            assert(is_line(self.lines_seq()[n - 1]));
        }
        if last[last.len() - 1] == NEWLINE {
            if n < usize::MAX {
                n + 1
            } else {
                n
            }
        } else {
            n
        }
    }

    /// The whole text, rebuilt as one byte vector.
    pub fn text(&self) -> (r: Vec<u8>)
        ensures
            r@ == self.spec_text(),
    {
        let mut r: Vec<u8> = Vec::new();
        let mut i: usize = 0;
        while i < self.lines.len()
            invariant
                i <= self.lines.len(),
                r@ == concat_bytes(self.lines_seq().take(i as int)),
            decreases self.lines.len() - i,
        {
            proof {
                lemma_concat_take_succ(self.lines_seq(), i as int);
            }
            let mut piece = slice_to_vec(self.lines[i].as_slice());
            r.append(&mut piece);
            i += 1;
        }
        proof {
            assert(self.lines_seq().take(self.lines_seq().len() as int) =~= self.lines_seq());
        }
        r
    }

    /// The byte offset of `p` within the text.
    pub fn offset_at_point(&self, p: Point) -> (r: usize)
        requires
            self.wf(),
            self.valid_point(p),
        ensures
            r == self.spec_offset_at(p),
    {
        proof {
            self.lemma_offset_bounds(p);
        }
        let mut sum: usize = 0;
        let mut i: usize = 0;
        while i < p.row
            invariant
                self.wf(),
                self.valid_point(p),
                i <= p.row,
                p.row <= self.lines_seq().len(),
                sum == concat_bytes(self.lines_seq().take(i as int)).len(),
                sum <= self.spec_text().len(),
            decreases p.row - i,
        {
            proof {
                lemma_concat_take_succ(self.lines_seq(), i as int);
                lemma_concat_split(self.lines_seq(), i as int + 1);
                self.lemma_take_len_le(i as int + 1);
            }
            sum += self.lines[i].len();
            i += 1;
        }
        proof {
            self.lemma_offset_bounds(p);
        }
        sum + p.column
    }

    /// The point reached by walking `offset` bytes into the text; the
    /// virtual point one past the last line when `offset` is the text
    /// length or more.
    pub fn point_at_offset(&self, offset: usize) -> (r: Point)
        requires
            self.wf(),
        ensures
            offset <= self.spec_text().len() ==> r == self.spec_point_at(offset as int),
            offset > self.spec_text().len() ==> r == (Point {
                row: self.lines_seq().len() as usize,
                column: 0,
            }),
    {
        proof {
            assert(self.lines_seq().skip(0) =~= self.lines_seq());
        }
        let mut rest: usize = offset;
        let mut i: usize = 0;
        while i < self.lines.len()
            invariant
                self.wf(),
                i <= self.lines.len(),
                offset <= self.spec_text().len() ==> {
                    &&& self.spec_point_at(offset as int) == point_at_in(
                        self.lines_seq().skip(i as int),
                        rest as int,
                        i as int,
                    )
                    &&& rest <= concat_bytes(self.lines_seq().skip(i as int)).len()
                },
                offset > self.spec_text().len() ==> rest > concat_bytes(
                    self.lines_seq().skip(i as int),
                ).len(),
            decreases self.lines.len() - i,
        {
            proof {
                let tailv = self.lines_seq().skip(i as int);
                assert(tailv.skip(1) =~= self.lines_seq().skip(i as int + 1));
                assert(concat_bytes(tailv) == tailv[0] + concat_bytes(tailv.skip(1)));
            }
            let line_len = self.lines[i].len();
            if rest < line_len {
                proof {
                    assert(offset <= self.spec_text().len());
                }
                return Point { row: i, column: rest };
            }
            proof {
                let tailv = self.lines_seq().skip(i as int);
                if offset <= self.spec_text().len() {
                    assert(point_at_in(tailv, rest as int, i as int) == point_at_in(
                        tailv.skip(1),
                        rest - tailv[0].len(),
                        i as int + 1,
                    ));
                }
            }
            rest -= line_len;
            i += 1;
        }
        proof {
            assert(self.lines_seq().skip(self.lines_seq().len() as int)
                =~= Seq::<Seq<u8>>::empty());
        }
        Point { row: self.lines.len(), column: 0 }
    }

    /// The bytes between two points.
    pub fn text_in_range(&self, start: Point, end: Point) -> (r: Vec<u8>)
        requires
            self.wf(),
            self.valid_point(start),
            self.valid_point(end),
            self.spec_offset_at(start) <= self.spec_offset_at(end),
        ensures
            r@ == self.spec_text().subrange(self.spec_offset_at(start), self.spec_offset_at(end)),
    {
        let off_start = self.offset_at_point(start);
        let off_end = self.offset_at_point(end);
        proof {
            self.lemma_offset_bounds(end);
        }
        let full = self.text();
        let mut r: Vec<u8> = Vec::new();
        let mut i: usize = off_start;
        while i < off_end
            invariant
                off_start <= i <= off_end <= full@.len(),
                full@ == self.spec_text(),
                r@ == self.spec_text().subrange(off_start as int, i as int),
            decreases off_end - i,
        {
            r.push(full[i]);
            i += 1;
            proof {
                assert(r@ =~= self.spec_text().subrange(off_start as int, i as int));
            }
        }
        r
    }

    /// Splice edit: replace the byte range between two points with `text`.
    /// The result is exactly the direct byte splice on the old text.
    pub fn replace_range(&mut self, start: Point, end: Point, text: &[u8])
        requires
            old(self).wf(),
            start.row < old(self).lines_seq().len(),
            end.row < old(self).lines_seq().len(),
            old(self).valid_point(start),
            old(self).valid_point(end),
            start.spec_le(end),
            old(self).spec_text().len() + text@.len() <= usize::MAX,
        ensures
            final(self).wf(),
            final(self).spec_text() == old(self).spec_text().subrange(
                0,
                old(self).spec_offset_at(start),
            ) + text@ + old(self).spec_text().subrange(
                old(self).spec_offset_at(end),
                old(self).spec_text().len() as int,
            ),
    {
        let ghost old_lines = self.lines_seq();
        let ghost off_start = self.spec_offset_at(start);
        let ghost off_end = self.spec_offset_at(end);
        proof {
            self.lemma_le_offsets(start, end);
            self.lemma_offset_bounds(start);
            self.lemma_offset_bounds(end);
        }

        // The spliced middle segment: head of the start row, the new text,
        // and the tail of the end row.
        let start_line = &self.lines[start.row];
        let mut mid: Vec<u8> = slice_to_vec(
            slice_subrange(start_line.as_slice(), 0, start.column),
        );
        let mut insert = slice_to_vec(text);
        mid.append(&mut insert);
        let end_line = &self.lines[end.row];
        let mut tail = slice_to_vec(
            slice_subrange(end_line.as_slice(), end.column, end_line.len()),
        );
        mid.append(&mut tail);

        let ghost mid_base = old_lines[start.row as int].take(start.column as int) + text@
            + old_lines[end.row as int].skip(end.column as int);
        proof {
            assert(mid@ =~= mid_base);
        }

        // First untouched row after the edit.  When the middle segment does
        // not end with a newline it must fuse with the following line.
        let nlines = self.lines.len();
        let mut rest: usize = end.row + 1;
        let last_is_newline = mid.len() > 0 && mid[mid.len() - 1] == NEWLINE;
        if rest < self.lines.len() && !last_is_newline {
            let mut fused = slice_to_vec(self.lines[rest].as_slice());
            mid.append(&mut fused);
            rest += 1;
            proof {
                assert(old_lines.subrange(end.row + 1, rest as int) =~= seq![
                    old_lines[end.row + 1],
                ]);
                assert(seq![old_lines[end.row + 1]].skip(1) =~= Seq::<Seq<u8>>::empty());
                assert(concat_bytes(Seq::<Seq<u8>>::empty()) == Seq::<u8>::empty());
                assert(concat_bytes(seq![old_lines[end.row + 1]]) == old_lines[end.row + 1]
                    + Seq::<u8>::empty());
                assert(mid@ =~= mid_base + concat_bytes(
                    old_lines.subrange(end.row + 1, rest as int),
                ));
            }
        } else {
            proof {
                assert(old_lines.subrange(end.row + 1, rest as int)
                    =~= Seq::<Seq<u8>>::empty());
                assert(concat_bytes(Seq::<Seq<u8>>::empty()) == Seq::<u8>::empty());
                assert(mid@ =~= mid_base + concat_bytes(
                    old_lines.subrange(end.row + 1, rest as int),
                ));
            }
        }
        let ghost mid_full = mid@;
        let ghost fuse_done = rest;
        proof {
            assert(mid@.len() == 0 ==> fuse_done == old_lines.len());
            assert(fuse_done < old_lines.len() ==> mid@.len() > 0 && mid@.last() == NEWLINE);
        }

        // Reassemble: untouched prefix rows, the split middle, untouched
        // suffix rows.
        let mut new_lines: Vec<Vec<u8>> = Vec::new();
        let mut i: usize = 0;
        while i < start.row
            invariant
                i <= start.row,
                start.row < self.lines@.len(),
                self.lines_seq() == old_lines,
                vecs_view(new_lines@) =~= old_lines.take(i as int),
            decreases start.row - i,
        {
            let ghost prev = new_lines@;
            let copied = slice_to_vec(self.lines[i].as_slice());
            new_lines.push(copied);
            i += 1;
            proof {
                lemma_vecs_view_push(prev, new_lines@[new_lines@.len() - 1]);
                assert(vecs_view(new_lines@) =~= old_lines.take(i as int));
            }
        }

        let mut mid_lines = split_into_lines(mid.as_slice());
        let ghost mid_seq = vecs_view(mid_lines@);
        let ghost prefix_vecs = new_lines@;
        let ghost mid_vecs = mid_lines@;
        new_lines.append(&mut mid_lines);
        proof {
            lemma_vecs_view_append(prefix_vecs, mid_vecs);
            assert(vecs_view(new_lines@) =~= old_lines.take(
                start.row as int,
            ) + mid_seq);
        }

        let mut j: usize = rest;
        while j < self.lines.len()
            invariant
                rest <= j <= self.lines@.len(),
                self.lines_seq() == old_lines,
                vecs_view(new_lines@) =~= old_lines.take(start.row as int)
                    + mid_seq + old_lines.subrange(rest as int, j as int),
            decreases self.lines@.len() - j,
        {
            let ghost prev = new_lines@;
            new_lines.push(slice_to_vec(self.lines[j].as_slice()));
            j += 1;
            proof {
                lemma_vecs_view_push(prev, new_lines@[new_lines@.len() - 1]);
                assert(vecs_view(new_lines@) =~= old_lines.take(start.row as int)
                    + mid_seq + old_lines.subrange(rest as int, j as int));
            }
        }

        self.lines = new_lines;

        proof {
            let ls = self.lines_seq();
            assert(ls =~= old_lines.take(start.row as int) + mid_seq + old_lines.skip(
                fuse_done as int,
            ));
            lemma_concat_append(
                old_lines.take(start.row as int) + mid_seq,
                old_lines.skip(fuse_done as int),
            );
            lemma_concat_append(old_lines.take(start.row as int), mid_seq);
            Self::lemma_splice_text(old_lines, mid_full, start, end, text@, fuse_done as int);
            assert(self.spec_text() == concat_bytes(old_lines).subrange(0, off_start) + text@
                + concat_bytes(old_lines).subrange(off_end, concat_bytes(old_lines).len() as int));
            assert(mid_seq.len() == 0 ==> mid_full.len() == 0);
            self.lemma_replace_preserves_wf(old_lines, mid_seq, start, fuse_done as int);
        }
    }

    /// Offsets are ordered as their points are.
    proof fn lemma_le_offsets(&self, p: Point, q: Point)
        requires
            self.wf(),
            self.valid_point(p),
            self.valid_point(q),
            p.spec_le(q),
        ensures
            self.spec_offset_at(p) <= self.spec_offset_at(q),
    {
        if p.row < q.row {
            let ls = self.lines_seq();
            assert(ls.take(q.row as int) =~= ls.take(p.row as int) + ls.take(q.row as int).skip(
                p.row as int,
            ));
            lemma_concat_append(
                ls.take(p.row as int),
                ls.take(q.row as int).skip(p.row as int),
            );
            let midp = ls.take(q.row as int).skip(p.row as int);
            assert(midp[0] =~= ls[p.row as int]);
            assert(concat_bytes(midp) =~= midp[0] + concat_bytes(midp.skip(1)));
            assert(p.column <= ls[p.row as int].len());
        }
    }

    /// Every point offset lies within the text.
    proof fn lemma_offset_bounds(&self, p: Point)
        requires
            self.wf(),
            self.valid_point(p),
        ensures
            0 <= self.spec_offset_at(p) <= self.spec_text().len(),
    {
        let ls = self.lines_seq();
        lemma_concat_split(ls, p.row as int);
        if p.row < ls.len() {
            assert(concat_bytes(ls.skip(p.row as int)) =~= ls[p.row as int] + concat_bytes(
                ls.skip(p.row as int).skip(1),
            ));
        } else {
            assert(ls.take(p.row as int) =~= ls);
        }
    }

    /// The concatenation of a prefix of the lines is a prefix of the text.
    proof fn lemma_take_len_le(&self, k: int)
        requires
            0 <= k <= self.lines_seq().len(),
        ensures
            concat_bytes(self.lines_seq().take(k)).len() <= self.spec_text().len(),
    {
        lemma_concat_split(self.lines_seq(), k);
    }

    /// Well-formedness of the reassembled line structure after a splice.
    proof fn lemma_replace_preserves_wf(
        &self,
        old_lines: Seq<Seq<u8>>,
        mid_seq: Seq<Seq<u8>>,
        start: Point,
        rest: int,
    )
        requires
            self.lines_seq() == old_lines.take(start.row as int) + mid_seq + old_lines.skip(rest),
            start.row < old_lines.len(),
            start.row < rest <= old_lines.len(),
            forall|i: int| 0 <= i < old_lines.len() ==> is_line(#[trigger] old_lines[i]),
            forall|i: int|
                0 <= i < old_lines.len() - 1 ==> (#[trigger] old_lines[i]).last() == NEWLINE,
            forall|i: int| 0 <= i < mid_seq.len() ==> is_line(#[trigger] mid_seq[i]),
            forall|i: int| 0 <= i < mid_seq.len() - 1 ==> (#[trigger] mid_seq[i]).last() == NEWLINE,
            mid_seq.len() > 0 && rest < old_lines.len() ==> mid_seq.last().last() == NEWLINE,
            mid_seq.len() == 0 && rest < old_lines.len() && start.row > 0 ==> old_lines[start.row
                - 1].last() == NEWLINE,
            self.spec_text().len() <= usize::MAX,
        ensures
            self.wf(),
    {
        let ls = self.lines_seq();
        let a = start.row as int;
        let m = mid_seq.len() as int;
        assert forall|i: int| 0 <= i < ls.len() implies is_line(#[trigger] ls[i]) by {
            if i < a {
                assert(ls[i] == old_lines[i]);
            } else if i < a + m {
                assert(ls[i] == mid_seq[i - a]);
            } else {
                assert(ls[i] == old_lines[rest + (i - a - m)]);
            }
        }
        assert forall|i: int| 0 <= i < ls.len() - 1 implies (#[trigger] ls[i]).last() == NEWLINE by {
            if i < a {
                assert(ls[i] == old_lines[i]);
                if i == a - 1 && m == 0 && a + m + (old_lines.len() - rest) == ls.len() {
                }
            } else if i < a + m {
                assert(ls[i] == mid_seq[i - a]);
            } else {
                assert(ls[i] == old_lines[rest + (i - a - m)]);
            }
        }
    }

    /// The reassembled text equals the direct byte splice.
    proof fn lemma_splice_text(
        old_lines: Seq<Seq<u8>>,
        mid: Seq<u8>,
        start: Point,
        end: Point,
        text: Seq<u8>,
        rest: int,
    )
        requires
            start.row < old_lines.len(),
            end.row < old_lines.len(),
            start.column <= old_lines[start.row as int].len(),
            end.column <= old_lines[end.row as int].len(),
            start.row <= end.row,
            end.row + 1 <= rest <= old_lines.len(),
            mid == old_lines[start.row as int].take(start.column as int) + text + old_lines[end.row
                as int].skip(end.column as int) + concat_bytes(
                old_lines.subrange(end.row + 1, rest),
            ),
            concat_bytes(old_lines.take(start.row as int)).len() + start.column <= concat_bytes(
                old_lines.take(end.row as int),
            ).len() + end.column,
        ensures
            concat_bytes(old_lines.take(start.row as int)) + mid + concat_bytes(
                old_lines.skip(rest),
            ) == concat_bytes(old_lines).subrange(
                0,
                concat_bytes(old_lines.take(start.row as int)).len() + start.column,
            ) + text + concat_bytes(old_lines).subrange(
                concat_bytes(old_lines.take(end.row as int)).len() + end.column,
                concat_bytes(old_lines).len() as int,
            ),
    {
        let full = concat_bytes(old_lines);
        let off_start = concat_bytes(old_lines.take(start.row as int)).len() + start.column;
        let off_end = concat_bytes(old_lines.take(end.row as int)).len() + end.column;

        // Prefix: text up to off_start is the leading rows plus the head of
        // the start row.
        lemma_concat_split(old_lines, start.row as int);
        assert(concat_bytes(old_lines.skip(start.row as int)) =~= old_lines[start.row as int]
            + concat_bytes(old_lines.skip(start.row as int).skip(1)));
        assert(full.subrange(0, off_start as int) =~= concat_bytes(old_lines.take(start.row as int))
            + old_lines[start.row as int].take(start.column as int));

        // Suffix: text from off_end is the tail of the end row plus the
        // following rows.
        lemma_concat_split(old_lines, end.row as int);
        assert(concat_bytes(old_lines.skip(end.row as int)) =~= old_lines[end.row as int]
            + concat_bytes(old_lines.skip(end.row as int).skip(1)));
        assert(old_lines.skip(end.row as int).skip(1) =~= old_lines.skip(end.row + 1));
        assert(off_end <= full.len()) by {
            lemma_concat_split(old_lines, end.row as int);
        }
        assert(full.subrange(off_end as int, full.len() as int) =~= old_lines[end.row as int].skip(
            end.column as int,
        ) + concat_bytes(old_lines.skip(end.row + 1)));

        // The rows between end.row + 1 and rest were fused into the middle.
        assert(old_lines.skip(end.row + 1) =~= old_lines.subrange(end.row + 1, rest)
            + old_lines.skip(rest));
        lemma_concat_append(old_lines.subrange(end.row + 1, rest), old_lines.skip(rest));

        assert(concat_bytes(old_lines.take(start.row as int)) + mid + concat_bytes(
            old_lines.skip(rest),
        ) =~= full.subrange(0, off_start as int) + text + full.subrange(
            off_end as int,
            full.len() as int,
        ));
    }
}

/// Each non-empty line contributes at least one byte to the text.
proof fn lemma_concat_len_ge(ls: Seq<Seq<u8>>)
    requires
        forall|i: int| 0 <= i < ls.len() ==> (#[trigger] ls[i]).len() > 0,
    ensures
        concat_bytes(ls).len() >= ls.len(),
    decreases ls.len(),
{
    if ls.len() > 0 {
        assert(concat_bytes(ls) == ls[0] + concat_bytes(ls.skip(1)));
        assert(forall|i: int|
            0 <= i < ls.skip(1).len() ==> (#[trigger] ls.skip(1)[i]).len() > 0) by {
            assert(forall|i: int|
                0 <= i < ls.skip(1).len() ==> ls.skip(1)[i] == ls[i + 1]);
        }
        lemma_concat_len_ge(ls.skip(1));
    }
}

/// Walking `o` bytes with a shifted starting row shifts the resulting row.
proof fn lemma_point_at_in_shift(ls: Seq<Seq<u8>>, o: int, row: int)
    requires
        0 <= row,
        row + ls.len() <= usize::MAX,
    ensures
        point_at_in(ls, o, row).row == point_at_in(ls, o, 0).row + row,
        point_at_in(ls, o, row).column == point_at_in(ls, o, 0).column,
    decreases ls.len(),
{
    if ls.len() == 0 {
    } else if o < ls[0].len() {
    } else {
        lemma_point_at_in_shift(ls.skip(1), o - ls[0].len(), row + 1);
        lemma_point_at_in_shift(ls.skip(1), o - ls[0].len(), 1);
    }
}

/// Walking any in-range offset lands on a boundary point whose offset is
/// the one walked.
proof fn lemma_offset_of_point_at(ls: Seq<Seq<u8>>, o: int)
    requires
        0 <= o <= concat_bytes(ls).len(),
        ls.len() <= usize::MAX,
        concat_bytes(ls).len() <= usize::MAX,
    ensures
        ({
            let p = point_at_in(ls, o, 0);
            &&& p.row <= ls.len()
            &&& (p.row < ls.len() ==> p.column < ls[p.row as int].len())
            &&& (p.row == ls.len() as usize ==> p.column == 0)
            &&& concat_bytes(ls.take(p.row as int)).len() + p.column == o
        }),
    decreases ls.len(),
{
    if ls.len() == 0 {
        assert(ls.take(0) =~= ls);
    } else {
        assert(concat_bytes(ls) == ls[0] + concat_bytes(ls.skip(1)));
        if o < ls[0].len() {
            assert(ls.take(0) =~= Seq::<Seq<u8>>::empty());
            assert(concat_bytes(Seq::<Seq<u8>>::empty()) == Seq::<u8>::empty());
        } else {
            let o2 = o - ls[0].len();
            lemma_offset_of_point_at(ls.skip(1), o2);
            lemma_point_at_in_shift(ls.skip(1), o2, 1);
            let p2 = point_at_in(ls.skip(1), o2, 0);
            let p = point_at_in(ls, o, 0);
            assert(p.row == p2.row + 1);
            assert(ls.take(p.row as int) =~= seq![ls[0]] + ls.skip(1).take(p2.row as int));
            lemma_concat_append(seq![ls[0]], ls.skip(1).take(p2.row as int));
            assert(seq![ls[0]].skip(1) =~= Seq::<Seq<u8>>::empty());
            assert(concat_bytes(Seq::<Seq<u8>>::empty()) == Seq::<u8>::empty());
            assert(concat_bytes(seq![ls[0]]) == ls[0] + Seq::<u8>::empty());
        }
    }
}

/// Walking the offset of an in-range point lands back on that point.
proof fn lemma_point_at_of_offset(ls: Seq<Seq<u8>>, p: Point)
    requires
        ls.len() <= usize::MAX,
        (p.row < ls.len() && p.column < ls[p.row as int].len()) || (p.row == ls.len()
            && p.column == 0),
    ensures
        point_at_in(ls, concat_bytes(ls.take(p.row as int)).len() + p.column, 0) == p,
    decreases ls.len(),
{
    if p.row == 0 {
        assert(ls.take(0) =~= Seq::<Seq<u8>>::empty());
        assert(concat_bytes(Seq::<Seq<u8>>::empty()) == Seq::<u8>::empty());
        if ls.len() == 0 {
        }
    } else {
        let p2 = Point { row: (p.row - 1) as usize, column: p.column };
        lemma_point_at_of_offset(ls.skip(1), p2);
        let o2 = concat_bytes(ls.skip(1).take(p2.row as int)).len() + p2.column;
        lemma_point_at_in_shift(ls.skip(1), o2, 1);
        assert(ls.take(p.row as int) =~= seq![ls[0]] + ls.skip(1).take(p2.row as int));
        lemma_concat_append(seq![ls[0]], ls.skip(1).take(p2.row as int));
        assert(seq![ls[0]].skip(1) =~= Seq::<Seq<u8>>::empty());
        assert(concat_bytes(Seq::<Seq<u8>>::empty()) == Seq::<u8>::empty());
        assert(concat_bytes(seq![ls[0]]) == ls[0] + Seq::<u8>::empty());
        let o = concat_bytes(ls.take(p.row as int)).len() + p.column;
        assert(o == ls[0].len() + o2);
        assert(point_at_in(ls, o, 0) == point_at_in(ls.skip(1), o2, 1));
    }
}

/// Split raw text into stored lines: each line keeps its ending newline,
/// and only the last line may lack one.
pub fn split_into_lines(text: &[u8]) -> (r: Vec<Vec<u8>>)
    ensures
        concat_bytes(vecs_view(r@)) == text@,
        forall|i: int| 0 <= i < r@.len() ==> is_line(#[trigger] vecs_view(r@)[i]),
        forall|i: int|
            0 <= i < r@.len() - 1 ==> (#[trigger] vecs_view(r@)[i]).last()
                == NEWLINE,
        r@.len() > 0 ==> (text@.len() > 0 && (vecs_view(r@).last().last() == NEWLINE
            <==> text@.last() == NEWLINE)),
        text@.len() > 0 ==> r@.len() > 0,
        text@.len() <= usize::MAX,
{
    let mut r: Vec<Vec<u8>> = Vec::new();
    let mut cur: Vec<u8> = Vec::new();
    let mut i: usize = 0;
    while i < text.len()
        invariant
            i <= text@.len(),
            concat_bytes(vecs_view(r@)) + cur@ =~= text@.take(i as int),
            forall|j: int|
                0 <= j < r@.len() ==> is_line(#[trigger] vecs_view(r@)[j]),
            forall|j: int|
                0 <= j < r@.len() ==> (#[trigger] vecs_view(r@)[j]).last()
                    == NEWLINE,
            forall|j: int| 0 <= j < cur@.len() ==> cur@[j] != NEWLINE,
            cur@.len() == 0 ==> (i == 0 || (r@.len() > 0 && text@[i as int - 1] == NEWLINE)),
            cur@.len() > 0 ==> i > 0 && text@[i as int - 1] != NEWLINE,
        decreases text@.len() - i,
    {
        let b = text[i];
        cur.push(b);
        i += 1;
        proof {
            assert(text@.take(i as int) =~= text@.take(i as int - 1).push(text@[i as int - 1]));
            assert(concat_bytes(vecs_view(r@)) + cur@ =~= text@.take(i as int));
        }
        if b == NEWLINE {
            let ghost lines_before = vecs_view(r@);
            let ghost cur_snapshot = cur@;
            let finished = cur;
            cur = Vec::new();
            r.push(finished);
            proof {
                lemma_vecs_view_push(r@.subrange(0, r@.len() - 1), r@[r@.len() - 1]);
                assert(r@.subrange(0, r@.len() - 1) =~= r@.drop_last());
                assert(vecs_view(r@) =~= lines_before.push(cur_snapshot));
                lemma_concat_snoc(lines_before, cur_snapshot);
                assert(is_line(cur_snapshot));
                assert(concat_bytes(vecs_view(r@)) + cur@ =~= text@.take(i as int));
            }
        }
    }
    if cur.len() > 0 {
        let ghost lines_before = vecs_view(r@);
        let ghost cur_snapshot = cur@;
        r.push(cur);
        proof {
            assert(vecs_view(r@) =~= lines_before.push(cur_snapshot));
            lemma_concat_snoc(lines_before, cur_snapshot);
            assert(is_line(cur_snapshot));
        }
    }
    proof {
        assert(text@.take(text@.len() as int) =~= text@);
        assert(concat_bytes(vecs_view(r@)) =~= text@);
    }
    r
}

} // verus!
