//! Selections are the primary editing construct. Even cursors are
//! defined as a selection range.
//!
//! All positioning is done via `char` offsets into the buffer, and every
//! position is an edge between two chars (beam cursor semantics): a range
//! whose anchor equals its head selects nothing and is a plain cursor.

use crate::graphemes::{
    edge_at_or_after, edge_at_or_before, ensure_grapheme_boundary_next,
    ensure_grapheme_boundary_prev, is_grapheme_edge, lemma_next_edge, lemma_prev_edge, next_edge,
    prev_edge, prev_grapheme_boundary, GraphemeText,
};
use crate::movement::Direction;
use crate::normalize::{
    chained, has_primary, lemma_merge_prefix_shape, lemma_normalize_bounds, lemma_normalize_shape,
    merge_prefix, merge_sorted, some_from, some_to, sort_tagged, spec_normalize, tag,
    tagged_order,
};
use crate::text::{
    is_char_of_byte, lemma_count_lf_le_len, lemma_count_lf_take_mono, line_of, rope_byte_to_char,
    rope_char_to_byte, rope_char_to_line, rope_get_char, rope_len_chars, rope_slice, rope_text,
    rope_to_string, utf8_len,
};
use ropey::RopeSlice;
use smallvec::SmallVec;
use vstd::prelude::*;
use vstd::seq_lib::group_to_multiset_ensures;
use vstd::std_specs::cmp::PartialEqSpecImpl;
use vstd::std_specs::convert::FromSpecImpl;

verus! {

/// Reports a selection endpoint outside the document's scalar-edge domain.
#[derive(Debug, Clone, Copy, PartialEq, Eq, Structural)]
pub struct SelectionBoundsError {
    /// The invalid character edge.
    pub position: usize,
    /// The document's valid EOF edge.
    pub len_chars: usize,
}

/// Returns the character with right affinity at `edge`.
///
/// EOF is a valid edge with no right-hand character. Out-of-bounds edges are
/// rejected rather than clamped.
pub fn char_at_edge(text: RopeSlice, edge: usize) -> (r: Result<Option<char>, SelectionBoundsError>)
    ensures
        edge > rope_text(text).len() ==> r == Err::<Option<char>, SelectionBoundsError>(
            SelectionBoundsError { position: edge, len_chars: rope_text(text).len() as usize },
        ),
        edge < rope_text(text).len() ==> r == Ok::<Option<char>, SelectionBoundsError>(
            Some(rope_text(text)[edge as int]),
        ),
        edge == rope_text(text).len() ==> r == Ok::<Option<char>, SelectionBoundsError>(None),
{
    let len_chars = rope_len_chars(text);
    if len_chars < edge {
        return Err(SelectionBoundsError { position: edge, len_chars });
    }
    Ok(rope_get_char(text, edge))
}

/// Returns the byte range owned by an edge with right affinity.
///
/// A non-EOF edge owns the scalar immediately to its right. EOF owns the
/// natural empty byte range at the end of the document.
pub fn byte_range_at_edge(text: RopeSlice, edge: usize) -> (r: Result<
    std::ops::Range<usize>,
    SelectionBoundsError,
>)
    ensures
        edge > rope_text(text).len() ==> r == Err::<std::ops::Range<usize>, SelectionBoundsError>(
            SelectionBoundsError { position: edge, len_chars: rope_text(text).len() as usize },
        ),
        edge <= rope_text(text).len() ==> r is Ok,
        r matches Ok(b) ==> b.start == utf8_len(rope_text(text).take(edge as int)) && b.end
            == utf8_len(
            rope_text(text).take(
                if edge < rope_text(text).len() {
                    edge + 1
                } else {
                    edge as int
                },
            ),
        ),
{
    match char_at_edge(text, edge) {
        Err(e) => Err(e),
        Ok(_) => {
            let len_chars = rope_len_chars(text);
            let next = if edge < len_chars {
                edge + 1
            } else {
                edge
            };
            Ok(rope_char_to_byte(text, edge)..rope_char_to_byte(text, next))
        },
    }
}

/// Returns adjacency candidates at an edge, checking right before left.
///
/// This helper is reserved for commands such as brace and surround discovery
/// whose semantics explicitly inspect both sides of the beam. The candidates
/// are the char right of the edge (when it is not EOF) and then the char left
/// of it (when it is not the start of the text).
pub fn adjacent_char_positions(text: RopeSlice, edge: usize) -> (r: Result<
    Vec<usize>,
    SelectionBoundsError,
>)
    ensures
        edge > rope_text(text).len() ==> r == Err::<Vec<usize>, SelectionBoundsError>(
            SelectionBoundsError { position: edge, len_chars: rope_text(text).len() as usize },
        ),
        edge <= rope_text(text).len() ==> r is Ok,
        r matches Ok(v) ==> v@ == adjacent_candidates(rope_text(text).len(), edge),
{
    match char_at_edge(text, edge) {
        Err(e) => Err(e),
        Ok(_) => {
            let len_chars = rope_len_chars(text);
            let mut v: Vec<usize> = Vec::new();
            if edge < len_chars {
                v.push(edge);
            }
            if edge > 0 {
                v.push(edge - 1);
            }
            Ok(v)
        },
    }
}

/// The chars next to `edge`: right first, then left.
pub open spec fn adjacent_candidates(len: nat, edge: usize) -> Seq<usize> {
    let right: Seq<usize> = if edge < len {
        seq![edge]
    } else {
        Seq::empty()
    };
    let left: Seq<usize> = if edge > 0 {
        seq![(edge - 1) as usize]
    } else {
        Seq::empty()
    };
    right + left
}


/// A single selection range.
///
/// A range consists of an "anchor" and "head" position in
/// the text.  The head is the part that the user moves when
/// directly extending a selection.  The head and anchor
/// can be in any order, or even share the same position.
///
/// The anchor and head positions use gap indexing, meaning
/// that their indices represent the gaps *between* `char`s
/// rather than the `char`s themselves. For example, 1
/// represents the position between the first and second `char`.
///
/// - (0, 3): `[Som|]e text` - selection from 0 to 3, cursor at 3.
/// - (3, 0): `|[Som]e text` - selection from 0 to 3, cursor at 0.
/// - (1, 1): `S|ome text` - cursor at position 1, no selection.
///
/// Ranges are considered to be inclusive on the left and
/// exclusive on the right, regardless of anchor-head ordering.
/// This means, for example, that non-zero-width ranges that
/// are directly adjacent, sharing an edge, do not overlap.
/// However, a zero-width range will overlap with the shared
/// left-edge of another range.
#[derive(Debug, Clone, Copy)]
pub struct Range {
    /// The anchor of the range: the side that doesn't move when extending.
    pub anchor: usize,
    /// The head of the range, moved when extending.
    pub head: usize,
    /// The previous visual offset (softwrapped lines and columns) from
    /// the start of the line
    pub old_visual_position: Option<(u32, u32)>,
}

impl PartialEq for Range {
    fn eq(&self, other: &Self) -> (r: bool) {
        let same_visual = match (self.old_visual_position, other.old_visual_position) {
            (None, None) => true,
            (Some((a, b)), Some((c, d))) => a == c && b == d,
            _ => false,
        };
        self.anchor == other.anchor && self.head == other.head && same_visual
    }
}

impl PartialEqSpecImpl for Range {
    open spec fn obeys_eq_spec() -> bool {
        true
    }

    open spec fn eq_spec(&self, other: &Range) -> bool {
        *self == *other
    }
}

impl From<(usize, usize)> for Range {
    fn from(pair: (usize, usize)) -> (r: Self) {
        Range { anchor: pair.0, head: pair.1, old_visual_position: None }
    }
}

impl FromSpecImpl<(usize, usize)> for Range {
    open spec fn obeys_from_spec() -> bool {
        true
    }

    open spec fn from_spec(pair: (usize, usize)) -> Range {
        mk_range(pair.0, pair.1)
    }
}

impl Eq for Range {

}

/// Lower edge of a range.
pub open spec fn spec_from(r: Range) -> usize {
    if r.anchor <= r.head {
        r.anchor
    } else {
        r.head
    }
}

/// Upper edge of a range.
pub open spec fn spec_to(r: Range) -> usize {
    if r.anchor <= r.head {
        r.head
    } else {
        r.anchor
    }
}

/// The direction a range points to: backward exactly when its head is before its anchor.
pub open spec fn spec_direction(r: Range) -> Direction {
    if r.head < r.anchor {
        Direction::Backward
    } else {
        Direction::Forward
    }
}

/// The range with these endpoints and no remembered visual position.
pub open spec fn mk_range(anchor: usize, head: usize) -> Range {
    Range { anchor, head, old_visual_position: None }
}

/// The union of two ranges: backward when both are backward, forward otherwise.
pub open spec fn spec_merge(a: Range, b: Range) -> Range {
    if a.anchor > a.head && b.anchor > b.head {
        mk_range(
            if a.anchor >= b.anchor { a.anchor } else { b.anchor },
            if a.head <= b.head { a.head } else { b.head },
        )
    } else {
        mk_range(
            if spec_from(a) <= spec_from(b) { spec_from(a) } else { spec_from(b) },
            if spec_to(a) >= spec_to(b) { spec_to(a) } else { spec_to(b) },
        )
    }
}

/// The half-open overlap rule: same lower edge, or a proper intersection.
pub open spec fn spec_overlaps(a: Range, b: Range) -> bool {
    spec_from(a) == spec_from(b) || (spec_to(a) > spec_from(b) && spec_to(b) > spec_from(a))
}

/// `r` with `anchor` and `head` swapped.
pub open spec fn spec_flip(r: Range) -> Range {
    Range { anchor: r.head, head: r.anchor, old_visual_position: r.old_visual_position }
}

/// `r` itself when it points to `d`, otherwise flipped.
pub open spec fn spec_with_direction(r: Range, d: Direction) -> Range {
    if spec_direction(r) == d {
        r
    } else {
        spec_flip(r)
    }
}

/// The result of aligning `r` to the grapheme edges of `t`: a point snaps to the
/// edge at or before it; otherwise the lower edge snaps down, the upper edge snaps
/// up, and the direction is kept.
pub open spec fn aligned_endpoints(r: Range, t: Seq<char>) -> (usize, usize) {
    if r.anchor == r.head {
        let p = edge_at_or_before(t, r.anchor as int) as usize;
        (p, p)
    } else if r.anchor < r.head {
        (
            edge_at_or_before(t, r.anchor as int) as usize,
            edge_at_or_after(t, r.head as int) as usize,
        )
    } else {
        (
            edge_at_or_after(t, r.anchor as int) as usize,
            edge_at_or_before(t, r.head as int) as usize,
        )
    }
}

/// `r` aligned to the grapheme edges of `t`; the visual position is kept only
/// when the anchor does not move.
pub open spec fn spec_grapheme_aligned(r: Range, t: Seq<char>) -> Range {
    let (a, h) = aligned_endpoints(r, t);
    Range {
        anchor: a,
        head: h,
        old_visual_position: if a == r.anchor {
            r.old_visual_position
        } else {
            None
        },
    }
}

/// The last edge the range covers when computing its lines: its upper edge for a
/// point, otherwise the grapheme edge before the upper edge (but not below the lower edge).
pub open spec fn line_range_end(r: Range, t: Seq<char>) -> int {
    if r.anchor == r.head {
        spec_to(r) as int
    } else {
        let p = prev_edge(t, spec_to(r) as int);
        if p < spec_from(r) {
            spec_from(r) as int
        } else {
            p
        }
    }
}

impl Range {
    pub fn new(anchor: usize, head: usize) -> (r: Self)
        ensures
            r == mk_range(anchor, head),
    {
        Self { anchor, head, old_visual_position: None }
    }

    pub fn point(head: usize) -> (r: Self)
        ensures
            r == mk_range(head, head),
    {
        Self::new(head, head)
    }

    /// The range of a syntax node given by its byte span, pointing in `direction`.
    pub fn from_node(
        node_start_byte: usize,
        node_end_byte: usize,
        text: RopeSlice,
        direction: Direction,
    ) -> (r: Self)
        requires
            node_start_byte <= node_end_byte <= utf8_len(rope_text(text)),
        ensures
            is_char_of_byte(rope_text(text), node_start_byte as int, spec_from(r) as int),
            is_char_of_byte(rope_text(text), node_end_byte as int, spec_to(r) as int),
            spec_from(r) < spec_to(r) ==> spec_direction(r) == direction,
            r.old_visual_position is None,
    {
        let from = rope_byte_to_char(text, node_start_byte);
        let to = rope_byte_to_char(text, node_end_byte);
        proof {
            lemma_char_of_byte_monotone(rope_text(text), node_start_byte as int, from as int, node_end_byte as int, to as int);
        }
        Range::new(from, to).with_direction(direction)
    }

    /// Start of the range.
    pub fn from(&self) -> (r: usize)
        ensures
            r == spec_from(*self),
    {
        if self.anchor <= self.head {
            self.anchor
        } else {
            self.head
        }
    }

    /// End of the range.
    pub fn to(&self) -> (r: usize)
        ensures
            r == spec_to(*self),
    {
        if self.anchor <= self.head {
            self.head
        } else {
            self.anchor
        }
    }

    /// Total length of the range.
    pub fn len(&self) -> (r: usize)
        ensures
            r == spec_to(*self) - spec_from(*self),
    {
        self.to() - self.from()
    }

    /// The (inclusive) range of lines that the range overlaps.
    pub fn line_range(&self, text: RopeSlice) -> (r: (usize, usize))
        requires
            spec_to(*self) <= rope_text(text).len(),
        ensures
            r == (
                line_of(rope_text(text), spec_from(*self) as int) as usize,
                line_of(rope_text(text), line_range_end(*self, rope_text(text))) as usize,
            ),
    {
        let from = self.from();
        let to = if self.is_empty() {
            self.to()
        } else {
            let p = prev_grapheme_boundary(text, self.to());
            proof {
                lemma_prev_edge(rope_text(text), spec_to(*self) as int);
            }
            if p < from {
                from
            } else {
                p
            }
        };
        (rope_char_to_line(text, from), rope_char_to_line(text, to))
    }

    /// `true` when head and anchor are at the same position.
    pub fn is_empty(&self) -> (r: bool)
        ensures
            r == (self.anchor == self.head),
    {
        self.anchor == self.head
    }

    /// `Direction::Backward` when head < anchor.
    /// `Direction::Forward` otherwise.
    pub fn direction(&self) -> (r: Direction)
        ensures
            r == spec_direction(*self),
    {
        if self.head < self.anchor {
            Direction::Backward
        } else {
            Direction::Forward
        }
    }

    /// Flips the direction of the selection
    pub fn flip(&self) -> (r: Self)
        ensures
            r == spec_flip(*self),
    {
        Self { anchor: self.head, head: self.anchor, old_visual_position: self.old_visual_position }
    }

    /// Returns the selection if it goes in the direction of `direction`,
    /// flipping the selection otherwise.
    pub fn with_direction(self, direction: Direction) -> (r: Self)
        ensures
            r == spec_with_direction(self, direction),
    {
        if self.direction() == direction {
            self
        } else {
            self.flip()
        }
    }

    /// Check two ranges for overlap.
    pub fn overlaps(&self, other: &Self) -> (r: bool)
        ensures
            r == spec_overlaps(*self, *other),
    {
        self.from() == other.from() || (self.to() > other.from() && other.to() > self.from())
    }

    pub fn contains_range(&self, other: &Self) -> (r: bool)
        ensures
            r == (spec_from(*self) <= spec_from(*other) && spec_to(*self) >= spec_to(*other)),
    {
        self.from() <= other.from() && self.to() >= other.to()
    }

    pub fn contains(&self, pos: usize) -> (r: bool)
        ensures
            r == (spec_from(*self) <= pos && pos < spec_to(*self)),
    {
        self.from() <= pos && pos < self.to()
    }

    /// Extend the range to cover at least `from` `to`.
    pub fn extend(&self, from: usize, to: usize) -> (r: Self)
        requires
            from <= to,
        ensures
            r == (if self.anchor <= self.head {
                mk_range(
                    if self.anchor <= from { self.anchor } else { from },
                    if self.head >= to { self.head } else { to },
                )
            } else {
                mk_range(
                    if self.anchor >= to { self.anchor } else { to },
                    if self.head <= from { self.head } else { from },
                )
            }),
    {
        if self.anchor <= self.head {
            Self {
                anchor: if self.anchor <= from { self.anchor } else { from },
                head: if self.head >= to { self.head } else { to },
                old_visual_position: None,
            }
        } else {
            Self {
                anchor: if self.anchor >= to { self.anchor } else { to },
                head: if self.head <= from { self.head } else { from },
                old_visual_position: None,
            }
        }
    }

    /// Returns a range that encompasses both input ranges.
    ///
    /// This is like `extend()`, but tries to negotiate the
    /// anchor/head ordering between the two input ranges.
    pub fn merge(&self, other: Self) -> (r: Self)
        ensures
            r == spec_merge(*self, other),
    {
        if self.anchor > self.head && other.anchor > other.head {
            Range {
                anchor: if self.anchor >= other.anchor { self.anchor } else { other.anchor },
                head: if self.head <= other.head { self.head } else { other.head },
                old_visual_position: None,
            }
        } else {
            let (f1, f2) = (self.from(), other.from());
            let (t1, t2) = (self.to(), other.to());
            Range {
                anchor: if f1 <= f2 { f1 } else { f2 },
                head: if t1 >= t2 { t1 } else { t2 },
                old_visual_position: None,
            }
        }
    }

    /// Returns the text inside this range given the text of the whole buffer.
    pub fn fragment(&self, text: RopeSlice) -> (r: String)
        requires
            spec_to(*self) <= rope_text(text).len(),
        ensures
            r@ == rope_text(text).subrange(spec_from(*self) as int, spec_to(*self) as int),
    {
        rope_to_string(self.slice(text))
    }

    /// Returns the text inside this range given the text of the whole buffer.
    ///
    /// The returned value is a reference to the passed slice. This method never
    /// copies any contents.
    pub fn slice<'b>(&self, text: RopeSlice<'b>) -> (r: RopeSlice<'b>)
        requires
            spec_to(*self) <= rope_text(text).len(),
        ensures
            rope_text(r) == rope_text(text).subrange(spec_from(*self) as int, spec_to(*self) as int),
    {
        rope_slice(text, self.from(), self.to())
    }

    /// Compute a possibly new range from this range, with its ends
    /// shifted as needed to align with grapheme boundaries.
    ///
    /// Zero-width ranges will always stay zero-width, and non-zero-width
    /// ranges will never collapse to zero-width.
    pub fn grapheme_aligned(&self, slice: RopeSlice) -> (r: Self)
        requires
            self.anchor <= rope_text(slice).len(),
            self.head <= rope_text(slice).len(),
        ensures
            r == spec_grapheme_aligned(*self, rope_text(slice)),
    {
        let (new_anchor, new_head) = if self.anchor == self.head {
            let pos = ensure_grapheme_boundary_prev(slice, self.anchor);
            (pos, pos)
        } else if self.anchor < self.head {
            (
                ensure_grapheme_boundary_prev(slice, self.anchor),
                ensure_grapheme_boundary_next(slice, self.head),
            )
        } else {
            (
                ensure_grapheme_boundary_next(slice, self.anchor),
                ensure_grapheme_boundary_prev(slice, self.head),
            )
        };
        Range {
            anchor: new_anchor,
            head: new_head,
            old_visual_position: if new_anchor == self.anchor {
                self.old_visual_position
            } else {
                None
            },
        }
    }

    /// Gets the cursor position (the head of the range).
    pub fn cursor(self, _text: RopeSlice) -> (r: usize)
        ensures
            r == self.head,
    {
        self.head
    }

    /// Puts the cursor at `char_idx`, optionally extending the selection.
    ///
    /// If extending, the anchor stays in place; otherwise both anchor and head
    /// move to the new position (creating a zero-width selection/cursor).
    pub fn put_cursor(self, _text: RopeSlice, char_idx: usize, extend: bool) -> (r: Range)
        ensures
            r == (if extend {
                mk_range(self.anchor, char_idx)
            } else {
                mk_range(char_idx, char_idx)
            }),
    {
        if extend {
            Range::new(self.anchor, char_idx)
        } else {
            Range::point(char_idx)
        }
    }

    /// The line number that the cursor is on.
    pub fn cursor_line(&self, text: RopeSlice) -> (r: usize)
        requires
            self.head <= rope_text(text).len(),
        ensures
            r == line_of(rope_text(text), self.head as int),
    {
        rope_char_to_line(text, self.head)
    }

    /// Returns true if this Range covers a single grapheme in the given text
    pub fn is_single_grapheme(&self, doc: RopeSlice) -> (r: bool)
        requires
            spec_to(*self) <= rope_text(doc).len(),
        ensures
            r == single_grapheme(
                rope_text(doc).subrange(spec_from(*self) as int, spec_to(*self) as int),
            ),
    {
        let sub = self.slice(doc);
        let g = GraphemeText::new(sub);
        if g.len_chars == 0 {
            return false;
        }
        g.next(0) == g.len_chars
    }

    /// Converts this char range into an in order byte range, discarding
    /// direction.
    pub fn into_byte_range(&self, text: RopeSlice) -> (r: (usize, usize))
        requires
            spec_to(*self) <= rope_text(text).len(),
        ensures
            r == (
                utf8_len(rope_text(text).take(spec_from(*self) as int)) as usize,
                utf8_len(rope_text(text).take(spec_to(*self) as int)) as usize,
            ),
    {
        (rope_char_to_byte(text, self.from()), rope_char_to_byte(text, self.to()))
    }
}

/// The text `s`, segmented on its own, is exactly one grapheme cluster.
pub open spec fn single_grapheme(s: Seq<char>) -> bool {
    s.len() > 0 && next_edge(s, 0) == s.len()
}

/// The char holding a byte does not decrease when the byte grows.
pub proof fn lemma_char_of_byte_monotone(t: Seq<char>, b1: int, c1: int, b2: int, c2: int)
    requires
        b1 <= b2,
        is_char_of_byte(t, b1, c1),
        is_char_of_byte(t, b2, c2),
    ensures
        c1 <= c2,
{
    if c2 < c1 {
        lemma_utf8_len_take_monotone(t, c2 + 1, c1);
    }
}

/// UTF-8 length of prefixes grows with the prefix.
pub proof fn lemma_utf8_len_take_monotone(t: Seq<char>, i: int, j: int)
    requires
        0 <= i <= j <= t.len(),
    ensures
        utf8_len(t.take(i)) <= utf8_len(t.take(j)),
    decreases j - i,
{
    if i < j {
        lemma_utf8_len_take_monotone(t, i, j - 1);
        assert(t.take(j).drop_last() =~= t.take(j - 1));
    }
}


/// The ranges of a selection, stored as `smallvec` stores them: one range
/// inline, more on the heap.
#[verifier::external_body]
#[derive(Debug, PartialEq, Eq)]
pub struct RangeList {
    inner: SmallVec<[Range; 1]>,
}

impl Clone for RangeList {
    /// `SmallVec::clone`: a copy holding the same ranges.
    #[verifier::external_body]
    fn clone(&self) -> (r: Self)
        ensures
            range_list_items(r) == range_list_items(*self),
    {
        RangeList { inner: self.inner.clone() }
    }
}

/// The ranges held by a range list, in order.
pub uninterp spec fn range_list_items(v: RangeList) -> Seq<Range>;

/// `SmallVec::from_vec`: a small vector holding the ranges of `v`, in order.
#[verifier::external_body]
fn range_list_from_vec(v: Vec<Range>) -> (r: RangeList)
    ensures
        range_list_items(r) == v@,
{
    RangeList { inner: SmallVec::from_vec(v) }
}

/// `SmallVec::as_slice`: the ranges of the small vector as a slice.
#[verifier::external_body]
fn range_list_as_slice(v: &RangeList) -> (r: &[Range])
    ensures
        r@ == range_list_items(*v),
{
    v.inner.as_slice()
}


/// `SmallVec`'s `IndexMut`: the range at `i`, to change in place; what is
/// written through it becomes the range at `i`. With `i` in bounds the
/// indexing does not panic.
#[verifier::external_body]
fn range_list_index_mut(v: &mut RangeList, i: usize) -> (r: &mut Range)
    requires
        i < range_list_items(*old(v)).len(),
    ensures
        *r == range_list_items(*old(v))[i as int],
        range_list_items(*final(v)) == range_list_items(*old(v)).update(i as int, *final(r)),
    no_unwind
{
    &mut v.inner[i]
}

/// The first endpoint beyond `len`, visiting ranges in order and each range's
/// anchor before its head.
pub open spec fn first_out_of_bounds(ranges: Seq<Range>, len: nat) -> Option<usize>
    decreases ranges.len(),
{
    if ranges.len() == 0 {
        None
    } else if ranges[0].anchor > len {
        Some(ranges[0].anchor)
    } else if ranges[0].head > len {
        Some(ranges[0].head)
    } else {
        first_out_of_bounds(ranges.drop_first(), len)
    }
}

/// Every range aligned to the grapheme edges of `t`.
pub open spec fn aligned_all(ranges: Seq<Range>, t: Seq<char>) -> Seq<Range> {
    Seq::new(ranges.len(), |i: int| spec_grapheme_aligned(ranges[i], t))
}

/// A point at the head of every range.
pub open spec fn heads(ranges: Seq<Range>) -> Seq<Range> {
    Seq::new(ranges.len(), |i: int| mk_range(ranges[i].head, ranges[i].head))
}

/// The inclusive line span of every range.
pub open spec fn line_spans(ranges: Seq<Range>, t: Seq<char>) -> Seq<(usize, usize)> {
    Seq::new(
        ranges.len(),
        |i: int|
            (
                line_of(t, spec_from(ranges[i]) as int) as usize,
                line_of(t, line_range_end(ranges[i], t)) as usize,
            ),
    )
}

/// Each range starts on or after the last line of the range before it.
pub open spec fn lines_in_order(ranges: Seq<Range>, t: Seq<char>) -> bool {
    forall|i: int|
        0 <= i < ranges.len() - 1 ==> #[trigger] line_spans(ranges, t)[i + 1].0 >= line_spans(
            ranges,
            t,
        )[i].1
}

/// Line spans with each span that starts on or right after the last line of the
/// span before it merged into that span.
pub open spec fn merge_line_spans(spans: Seq<(usize, usize)>) -> Seq<(usize, usize)>
    decreases spans.len(),
{
    if spans.len() == 0 {
        Seq::empty()
    } else {
        let acc = merge_line_spans(spans.drop_last());
        let x = spans.last();
        if acc.len() > 0 && x.0 - acc.last().1 <= 1 {
            acc.update(acc.len() - 1, (acc.last().0, x.1))
        } else {
            acc.push(x)
        }
    }
}

/// One step of merging consecutive ranges: `curr` joins the last kept range when
/// it starts where that range ends; the tracked primary follows the merge.
pub open spec fn consecutive_step(st: (Seq<Range>, Range), curr: Range) -> (Seq<Range>, Range) {
    let (acc, p) = st;
    let prev = acc.last();
    if spec_to(prev) == spec_from(curr) {
        let nr = spec_merge(curr, prev);
        (acc.update(acc.len() - 1, nr), if prev == p || curr == p { nr } else { p })
    } else {
        (acc.push(curr), p)
    }
}

/// The kept ranges and the tracked primary after merging consecutive ranges of `rs`.
pub open spec fn consecutive_prefix(rs: Seq<Range>, p: Range) -> (Seq<Range>, Range)
    decreases rs.len(),
{
    if rs.len() <= 1 {
        (rs, p)
    } else {
        consecutive_step(consecutive_prefix(rs.drop_last(), p), rs.last())
    }
}

/// Index of the first occurrence of `x` in `s` (the length when there is none).
pub open spec fn first_index(s: Seq<Range>, x: Range) -> nat
    decreases s.len(),
{
    if s.len() == 0 {
        0
    } else if s[0] == x {
        0
    } else {
        1 + first_index(s.drop_first(), x)
    }
}

/// A selection consists of one or more selection ranges.
/// invariant: A selection can never be empty (always contains at least primary range).
#[derive(Debug, PartialEq, Eq)]
pub struct Selection {
    ranges: RangeList,
    primary_index: usize,
}

impl Clone for Selection {
    fn clone(&self) -> (r: Self)
        ensures
            r.spec_ranges() == self.spec_ranges(),
            r.spec_primary() == self.spec_primary(),
    {
        proof {
            use_type_invariant(self);
        }
        Selection { ranges: self.ranges.clone(), primary_index: self.primary_index }
    }
}

impl Selection {
    #[verifier::type_invariant]
    spec fn inv(self) -> bool {
        &&& range_list_items(self.ranges).len() > 0
        &&& self.primary_index < range_list_items(self.ranges).len()
    }

    /// The ranges of the selection, in stored order.
    pub closed spec fn spec_ranges(self) -> Seq<Range> {
        range_list_items(self.ranges)
    }

    /// The index of the primary range.
    pub closed spec fn spec_primary(self) -> nat {
        self.primary_index as nat
    }

    /// Builds a selection from its parts.
    fn from_parts(ranges: Vec<Range>, primary_index: usize) -> (r: Self)
        requires
            ranges@.len() > 0,
            primary_index < ranges@.len(),
        ensures
            r.spec_ranges() == ranges@,
            r.spec_primary() == primary_index,
    {
        Selection { ranges: range_list_from_vec(ranges), primary_index }
    }

    /// The ranges of the selection, in stored order.
    pub fn ranges(&self) -> (r: &[Range])
        ensures
            r@ == self.spec_ranges(),
            r@.len() > 0,
            self.spec_primary() < r@.len(),
    {
        proof {
            use_type_invariant(self);
        }
        range_list_as_slice(&self.ranges)
    }

    /// A copy of the ranges, in stored order.
    fn ranges_vec(&self) -> (r: Vec<Range>)
        ensures
            r@ == self.spec_ranges(),
    {
        let ranges = self.ranges();
        let n = ranges.len();
        let mut v: Vec<Range> = Vec::new();
        let mut k: usize = 0;
        while k < n
            invariant
                n == ranges@.len(),
                k <= n,
                v@ == ranges@.take(k as int),
            decreases n - k,
        {
            v.push(ranges[k]);
            proof {
                assert(ranges@.take(k + 1) =~= ranges@.take(k as int).push(ranges@[k as int]));
            }
            k = k + 1;
        }
        proof {
            assert(v@ =~= ranges@);
        }
        v
    }

    pub fn len(&self) -> (r: usize)
        ensures
            r == self.spec_ranges().len(),
            r > 0,
    {
        self.ranges().len()
    }

    pub fn primary_index(&self) -> (r: usize)
        ensures
            r == self.spec_primary(),
            r < self.spec_ranges().len(),
    {
        proof {
            use_type_invariant(self);
        }
        self.primary_index
    }

    pub fn primary(&self) -> (r: Range)
        ensures
            r == self.spec_ranges()[self.spec_primary() as int],
    {
        let ranges = self.ranges();
        ranges[self.primary_index()]
    }

    /// The primary range, to change in place; the other ranges and the
    /// primary index stay as they are.
    pub fn primary_mut(&mut self) -> (r: &mut Range)
        ensures
            *r == old(self).spec_ranges()[old(self).spec_primary() as int],
            final(self).spec_ranges() == old(self).spec_ranges().update(
                old(self).spec_primary() as int,
                *final(r),
            ),
            final(self).spec_primary() == old(self).spec_primary(),
    {
        proof {
            use_type_invariant(&*self);
        }
        let i = self.primary_index;
        range_list_index_mut(&mut self.ranges, i)
    }

    pub fn set_primary_index(&mut self, idx: usize)
        requires
            idx < old(self).spec_ranges().len(),
        ensures
            final(self).spec_ranges() == old(self).spec_ranges(),
            final(self).spec_primary() == idx,
    {
        self.primary_index = idx;
    }

    /// Iterates over the ranges in stored order.
    pub fn iter(&self) -> (r: std::slice::Iter<'_, Range>)
        ensures
            vstd::std_specs::slice::into_iter_elts(r) == self.spec_ranges(),
    {
        let ranges = self.ranges();
        let it = ranges.iter();
        proof {
            broadcast use vstd::std_specs::slice::axiom_spec_slice_iter;

            assert(vstd::std_specs::slice::into_iter_elts(it) =~= ranges@);
        }
        it
    }

    /// Constructs a selection holding a single range.
    pub fn single(anchor: usize, head: usize) -> (r: Self)
        ensures
            r.spec_ranges() == seq![mk_range(anchor, head)],
            r.spec_primary() == 0,
    {
        let mut v: Vec<Range> = Vec::new();
        v.push(Range::new(anchor, head));
        Self::from_parts(v, 0)
    }

    /// Constructs a selection holding a single cursor.
    pub fn point(pos: usize) -> (r: Self)
        ensures
            r.spec_ranges() == seq![mk_range(pos, pos)],
            r.spec_primary() == 0,
    {
        Self::single(pos, pos)
    }

    /// A selection holding `range` alone.
    pub fn from_range(range: Range) -> (r: Self)
        ensures
            r.spec_ranges() == seq![range],
            r.spec_primary() == 0,
    {
        let mut v: Vec<Range> = Vec::new();
        v.push(range);
        Self::from_parts(v, 0)
    }

    /// Normalizes a `Selection`.
    ///
    /// Ranges are sorted by [Range::from], with overlapping ranges merged
    /// (a union holding the primary keeps the primary's direction and
    /// becomes primary).
    pub fn normalize(self) -> (r: Self)
        ensures
            (r.spec_ranges(), r.spec_primary()) == spec_normalize(
                self.spec_ranges(),
                self.spec_primary(),
            ),
    {
        proof {
            use_type_invariant(&self);
        }
        let n = self.len();
        if n < 2 {
            return self;
        }
        let ghost input = self.spec_ranges();
        let ghost p = self.spec_primary();
        let slice = self.ranges();
        let primary_index = self.primary_index();
        let mut tagged: Vec<(Range, bool)> = Vec::new();
        let mut i: usize = 0;
        while i < n
            invariant
                n == input.len(),
                slice@ == input,
                primary_index == p,
                i <= n,
                tagged@ == tag(input, p).take(i as int),
            decreases n - i,
        {
            tagged.push((slice[i], i == primary_index));
            proof {
                assert(tag(input, p).take(i + 1) =~= tag(input, p).take(i as int).push(
                    (input[i as int], i == p),
                ));
            }
            i = i + 1;
        }
        proof {
            assert(tagged@ =~= tag(input, p));
        }
        let sorted = sort_tagged(&tagged);
        let ghost m = merge_prefix(sorted@);
        proof {
            broadcast use group_to_multiset_ensures;

            tag(input, p).lemma_sort_by_ensures(tagged_order());
            lemma_merge_prefix_shape(sorted@);
            let t = tag(input, p);
            assert(t[p as int].1);
            assert(t.to_multiset().count(t[p as int]) > 0);
            assert(sorted@.contains(t[p as int]));
            let j = choose|j: int| 0 <= j < sorted@.len() && sorted@[j] == t[p as int];
            assert(sorted@[j].1);
            assert(has_primary(sorted@));
        }
        let (mut done, primary, cur) = merge_sorted(&sorted);
        let mut primary_index = match primary {
            Some(q) => q,
            None => 0,
        };
        match cur {
            Some(g) => {
                if g.3 {
                    primary_index = done.len();
                }
                done.push(Range::new(g.0, g.1).with_direction(g.2));
            },
            None => {},
        }
        Self::from_parts(done, primary_index)
    }

    /// Ensure selection containing only the primary selection.
    pub fn into_single(self) -> (r: Self)
        ensures
            self.spec_ranges().len() == 1 ==> r.spec_ranges() == self.spec_ranges(),
            self.spec_ranges().len() != 1 ==> r.spec_ranges() == seq![
                self.spec_ranges()[self.spec_primary() as int],
            ],
            r.spec_primary() == 0,
    {
        if self.len() == 1 {
            proof {
                use_type_invariant(&self);
            }
            self
        } else {
            Self::from_range(self.primary())
        }
    }

    /// Adds a new range to the selection and makes it the primary range.
    pub fn push(self, range: Range) -> (r: Self)
        ensures
            (r.spec_ranges(), r.spec_primary()) == spec_normalize(
                self.spec_ranges().push(range),
                self.spec_ranges().len(),
            ),
    {
        let mut v = self.ranges_vec();
        v.push(range);
        let n = v.len();
        Self::from_parts(v, n - 1).normalize()
    }

    /// Removes a range from the selection.
    pub fn remove(self, index: usize) -> (r: Self)
        requires
            self.spec_ranges().len() > 1,
            index < self.spec_ranges().len(),
        ensures
            r.spec_ranges() == self.spec_ranges().remove(index as int),
            r.spec_primary() == if index < self.spec_primary() || self.spec_primary()
                == self.spec_ranges().len() - 1 {
                self.spec_primary() - 1
            } else {
                self.spec_primary() as int
            },
    {
        let mut v = self.ranges_vec();
        let mut primary_index = self.primary_index();
        v.remove(index);
        if index < primary_index || primary_index == v.len() {
            primary_index = primary_index - 1;
        }
        Self::from_parts(v, primary_index)
    }

    /// Replace a range in the selection with a new range.
    pub fn replace(self, index: usize, range: Range) -> (r: Self)
        requires
            index < self.spec_ranges().len(),
        ensures
            (r.spec_ranges(), r.spec_primary()) == spec_normalize(
                self.spec_ranges().update(index as int, range),
                self.spec_primary(),
            ),
    {
        let mut v = self.ranges_vec();
        let primary_index = self.primary_index();
        v.set(index, range);
        Self::from_parts(v, primary_index).normalize()
    }

    /// Replaces ranges with one spanning from first to last range.
    pub fn merge_ranges(self) -> (r: Self)
        ensures
            r.spec_ranges() == seq![
                spec_merge(self.spec_ranges().first(), self.spec_ranges().last()),
            ],
            r.spec_primary() == 0,
    {
        let ranges = self.ranges();
        let first = ranges[0];
        let last = ranges[ranges.len() - 1];
        let mut v: Vec<Range> = Vec::new();
        v.push(first.merge(last));
        Self::new(v, 0)
    }

    /// Validates endpoint bounds, aligns graphemes, and normalizes collisions once.
    ///
    /// The first endpoint beyond EOF, in range order and anchor before head,
    /// is reported.
    pub fn try_ensure_invariants(self, text: RopeSlice) -> (r: Result<Self, SelectionBoundsError>)
        ensures
            first_out_of_bounds(self.spec_ranges(), rope_text(text).len()) matches Some(p) ==> r
                == Err::<Self, SelectionBoundsError>(
                SelectionBoundsError { position: p, len_chars: rope_text(text).len() as usize },
            ),
            first_out_of_bounds(self.spec_ranges(), rope_text(text).len()) is None ==> (r matches Ok(
                s,
            ) && (s.spec_ranges(), s.spec_primary()) == spec_normalize(
                aligned_all(self.spec_ranges(), rope_text(text)),
                self.spec_primary(),
            )),
    {
        let len_chars = rope_len_chars(text);
        let ranges = self.ranges();
        let ghost rs = self.spec_ranges();
        let n = ranges.len();
        let mut i: usize = 0;
        proof {
            assert(rs.skip(0) =~= rs);
        }
        while i < n
            invariant
                n == rs.len(),
                ranges@ == rs,
                rs == self.spec_ranges(),
                len_chars == rope_text(text).len(),
                i <= n,
                first_out_of_bounds(rs, len_chars as nat) == first_out_of_bounds(
                    rs.skip(i as int),
                    len_chars as nat,
                ),
                forall|j: int|
                    0 <= j < i ==> (#[trigger] rs[j]).anchor <= len_chars && rs[j].head
                        <= len_chars,
            decreases n - i,
        {
            let range = ranges[i];
            proof {
                assert(rs.skip(i as int).drop_first() =~= rs.skip(i + 1));
                assert(rs.skip(i as int)[0] == rs[i as int]);
                assert(rs.skip(i as int).len() > 0);
                assert(first_out_of_bounds(rs.skip(i as int), len_chars as nat) == if range.anchor
                    > len_chars {
                    Some(range.anchor)
                } else if range.head > len_chars {
                    Some(range.head)
                } else {
                    first_out_of_bounds(rs.skip(i + 1), len_chars as nat)
                });
            }
            if len_chars < range.anchor {
                return Err(SelectionBoundsError { position: range.anchor, len_chars });
            }
            if len_chars < range.head {
                return Err(SelectionBoundsError { position: range.head, len_chars });
            }
            i = i + 1;
        }
        let mut aligned: Vec<Range> = Vec::new();
        let mut k: usize = 0;
        while k < n
            invariant
                n == rs.len(),
                ranges@ == rs,
                len_chars == rope_text(text).len(),
                k <= n,
                forall|j: int|
                    0 <= j < n ==> (#[trigger] rs[j]).anchor <= len_chars && rs[j].head
                        <= len_chars,
                aligned@ == aligned_all(rs, rope_text(text)).take(k as int),
            decreases n - k,
        {
            aligned.push(ranges[k].grapheme_aligned(text));
            proof {
                assert(aligned_all(rs, rope_text(text)).take(k + 1) =~= aligned_all(
                    rs,
                    rope_text(text),
                ).take(k as int).push(spec_grapheme_aligned(rs[k as int], rope_text(text))));
            }
            k = k + 1;
        }
        proof {
            assert(aligned@ =~= aligned_all(rs, rope_text(text)));
            assert(rs.skip(n as int) =~= Seq::<Range>::empty());
            use_type_invariant(&self);
        }
        let primary_index = self.primary_index();
        Ok(Self::from_parts(aligned, primary_index).normalize())
    }

    /// Ensures the selection adheres to the following invariants:
    ///
    /// 1. All ranges are grapheme aligned.
    /// 2. Ranges are non-overlapping.
    /// 3. Ranges are sorted by their position in the text.
    pub fn ensure_invariants(self, text: RopeSlice) -> (r: Self)
        requires
            first_out_of_bounds(self.spec_ranges(), rope_text(text).len()) is None,
        ensures
            (r.spec_ranges(), r.spec_primary()) == spec_normalize(
                aligned_all(self.spec_ranges(), rope_text(text)),
                self.spec_primary(),
            ),
    {
        match self.try_ensure_invariants(text) {
            Ok(s) => s,
            Err(_) => {
                proof {
                    assert(false);
                }
                Self::point(0)
            },
        }
    }

    /// Validates, aligns, and collision-normalizes scalar ranges against `text`.
    pub fn try_new(ranges: Vec<Range>, primary_index: usize, text: RopeSlice) -> (r: Result<
        Self,
        SelectionBoundsError,
    >)
        requires
            ranges@.len() > 0,
            primary_index < ranges@.len(),
        ensures
            first_out_of_bounds(ranges@, rope_text(text).len()) matches Some(p) ==> r == Err::<
                Self,
                SelectionBoundsError,
            >(SelectionBoundsError { position: p, len_chars: rope_text(text).len() as usize }),
            first_out_of_bounds(ranges@, rope_text(text).len()) is None ==> (r matches Ok(s)
                && (s.spec_ranges(), s.spec_primary()) == spec_normalize(
                aligned_all(ranges@, rope_text(text)),
                primary_index as nat,
            )),
    {
        Self::new_unaligned(ranges, primary_index).try_ensure_invariants(text)
    }

    /// Transforms the selection into cursor positions (head positions).
    pub fn cursors(self, _text: RopeSlice) -> (r: Self)
        ensures
            ({
                let once = spec_normalize(heads(self.spec_ranges()), self.spec_primary());
                (r.spec_ranges(), r.spec_primary()) == spec_normalize(once.0, once.1)
            }),
    {
        let ranges = self.ranges();
        let ghost rs = self.spec_ranges();
        let n = ranges.len();
        let mut v: Vec<Range> = Vec::new();
        let mut k: usize = 0;
        while k < n
            invariant
                n == rs.len(),
                ranges@ == rs,
                k <= n,
                v@ == heads(rs).take(k as int),
            decreases n - k,
        {
            v.push(Range::point(ranges[k].head));
            proof {
                assert(heads(rs).take(k + 1) =~= heads(rs).take(k as int).push(
                    mk_range(rs[k as int].head, rs[k as int].head),
                ));
            }
            k = k + 1;
        }
        proof {
            assert(v@ =~= heads(rs));
        }
        let primary_index = self.primary_index();
        Self::from_parts(v, primary_index).normalize().normalize()
    }

    /// The text of every range, in stored order.
    pub fn fragments(&self, text: RopeSlice) -> (r: Vec<String>)
        requires
            forall|i: int|
                0 <= i < self.spec_ranges().len() ==> spec_to(#[trigger] self.spec_ranges()[i])
                    <= rope_text(text).len(),
        ensures
            r@.len() == self.spec_ranges().len(),
            forall|i: int|
                0 <= i < r@.len() ==> (#[trigger] r@[i])@ == rope_text(text).subrange(
                    spec_from(self.spec_ranges()[i]) as int,
                    spec_to(self.spec_ranges()[i]) as int,
                ),
    {
        let ranges = self.ranges();
        let n = ranges.len();
        let mut v: Vec<String> = Vec::new();
        let mut k: usize = 0;
        while k < n
            invariant
                n == self.spec_ranges().len(),
                ranges@ == self.spec_ranges(),
                forall|i: int|
                    0 <= i < self.spec_ranges().len() ==> spec_to(
                        #[trigger] self.spec_ranges()[i],
                    ) <= rope_text(text).len(),
                k <= n,
                v@.len() == k,
                forall|i: int|
                    0 <= i < k ==> (#[trigger] v@[i])@ == rope_text(text).subrange(
                        spec_from(self.spec_ranges()[i]) as int,
                        spec_to(self.spec_ranges()[i]) as int,
                    ),
            decreases n - k,
        {
            v.push(ranges[k].fragment(text));
            k = k + 1;
        }
        v
    }

    /// The slice of every range, in stored order.
    pub fn slices<'a>(&self, text: RopeSlice<'a>) -> (r: Vec<RopeSlice<'a>>)
        requires
            forall|i: int|
                0 <= i < self.spec_ranges().len() ==> spec_to(#[trigger] self.spec_ranges()[i])
                    <= rope_text(text).len(),
        ensures
            r@.len() == self.spec_ranges().len(),
            forall|i: int|
                0 <= i < r@.len() ==> rope_text(#[trigger] r@[i]) == rope_text(text).subrange(
                    spec_from(self.spec_ranges()[i]) as int,
                    spec_to(self.spec_ranges()[i]) as int,
                ),
    {
        let ranges = self.ranges();
        let n = ranges.len();
        let mut v: Vec<RopeSlice<'a>> = Vec::new();
        let mut k: usize = 0;
        while k < n
            invariant
                n == self.spec_ranges().len(),
                ranges@ == self.spec_ranges(),
                forall|i: int|
                    0 <= i < self.spec_ranges().len() ==> spec_to(
                        #[trigger] self.spec_ranges()[i],
                    ) <= rope_text(text).len(),
                k <= n,
                v@.len() == k,
                forall|i: int|
                    0 <= i < k ==> rope_text(#[trigger] v@[i]) == rope_text(text).subrange(
                        spec_from(self.spec_ranges()[i]) as int,
                        spec_to(self.spec_ranges()[i]) as int,
                    ),
            decreases n - k,
        {
            v.push(ranges[k].slice(text));
            k = k + 1;
        }
        v
    }

    /// Returns an iterator over the line ranges of each range in the selection.
    ///
    /// Adjacent and overlapping line ranges of the [Range]s in the selection are merged.
    pub fn line_ranges<'a>(&'a self, text: RopeSlice<'a>) -> (r: LineRangeIter<'a>)
        requires
            forall|i: int|
                0 <= i < self.spec_ranges().len() ==> spec_to(#[trigger] self.spec_ranges()[i])
                    <= rope_text(text).len(),
            lines_in_order(self.spec_ranges(), rope_text(text)),
        ensures
            r.spans() == line_spans(self.spec_ranges(), rope_text(text)),
            r.position() == 0,
    {
        LineRangeIter { ranges: self.ranges(), text, next_index: 0 }
    }

    /// Merges all ranges that are consecutive: a range whose lower edge is the
    /// upper edge of the range before it is merged into that range. The primary
    /// follows the range that holds it.
    pub fn merge_consecutive_ranges(self) -> (r: Self)
        ensures
            ({
                let (acc, p) = consecutive_prefix(
                    self.spec_ranges(),
                    self.spec_ranges()[self.spec_primary() as int],
                );
                r.spec_ranges() == acc && r.spec_primary() == first_index(acc, p)
            }),
    {
        proof {
            use_type_invariant(&self);
        }
        let ranges = self.ranges();
        let ghost rs = self.spec_ranges();
        let n = ranges.len();
        let mut primary = ranges[self.primary_index()];
        let ghost p0 = primary;
        let mut acc: Vec<Range> = Vec::new();
        acc.push(ranges[0]);
        let mut k: usize = 1;
        proof {
            assert(rs.take(1) =~= seq![rs[0]]);
            assert(p0 == rs[self.spec_primary() as int]);
            if self.spec_primary() > 0 {
                assert(rs.skip(1)[self.spec_primary() - 1] == p0);
                assert(rs.skip(1).contains(p0));
            } else {
                assert(acc@[0] == p0);
                assert(acc@.contains(p0));
            }
        }
        while k < n
            invariant
                n == rs.len(),
                n > 0,
                ranges@ == rs,
                1 <= k <= n,
                (acc@, primary) == consecutive_prefix(rs.take(k as int), p0),
                acc@.len() > 0,
                acc@.contains(primary) || rs.skip(k as int).contains(primary),
            decreases n - k,
        {
            let curr = ranges[k];
            let last = acc.len() - 1;
            let prev = acc[last];
            proof {
                assert(rs.take(k + 1).drop_last() =~= rs.take(k as int));
                assert(rs.take(k + 1).last() == curr);
            }
            let ghost old_acc = acc@;
            let ghost old_primary = primary;
            if prev.to() == curr.from() {
                let new_range = curr.merge(prev);
                if prev == primary || curr == primary {
                    primary = new_range;
                }
                acc.set(last, new_range);
                proof {
                    if !(prev == old_primary || curr == old_primary) {
                        if old_acc.contains(old_primary) {
                            let j = choose|j: int| 0 <= j < old_acc.len() && old_acc[j] == old_primary;
                            assert(j != last);
                            assert(acc@[j] == primary);
                        } else {
                            let j = choose|j: int|
                                0 <= j < rs.skip(k as int).len() && rs.skip(k as int)[j]
                                    == old_primary;
                            assert(j != 0);
                            assert(rs.skip(k + 1)[j - 1] == primary);
                        }
                    } else {
                        assert(acc@[last as int] == primary);
                    }
                }
            } else {
                acc.push(curr);
                proof {
                    if old_acc.contains(primary) {
                        let j = choose|j: int| 0 <= j < old_acc.len() && old_acc[j] == primary;
                        assert(acc@[j] == primary);
                    } else if curr == primary {
                        assert(acc@[acc@.len() - 1] == primary);
                    } else {
                        let j = choose|j: int|
                            0 <= j < rs.skip(k as int).len() && rs.skip(k as int)[j] == primary;
                        assert(j != 0);
                        assert(rs.skip(k + 1)[j - 1] == primary);
                    }
                }
            }
            k = k + 1;
        }
        proof {
            assert(rs.take(n as int) =~= rs);
            assert(rs.skip(n as int).len() == 0);
        }
        let mut idx: usize = 0;
        proof {
            assert(acc@.skip(0) =~= acc@);
        }
        while idx < acc.len() && acc[idx] != primary
            invariant
                idx <= acc@.len(),
                acc@.contains(primary),
                forall|j: int| 0 <= j < idx ==> acc@[j] != primary,
                first_index(acc@, primary) == idx + first_index(acc@.skip(idx as int), primary),
            decreases acc@.len() - idx,
        {
            proof {
                assert(acc@.skip(idx as int).drop_first() =~= acc@.skip(idx + 1));
            }
            idx = idx + 1;
        }
        proof {
            if idx == acc@.len() {
                let j = choose|j: int| 0 <= j < acc@.len() && acc@[j] == primary;
                assert(false);
            }
        }
        Self::from_parts(acc, idx)
    }

    /// Maps each range and normalizes the results.
    pub fn transform<F: Fn(Range) -> Range>(self, f: F) -> (r: Self)
        requires
            forall|i: int|
                0 <= i < self.spec_ranges().len() ==> f.requires((self.spec_ranges()[i],)),
        ensures
            exists|mapped: Seq<Range>|
                {
                    &&& mapped.len() == self.spec_ranges().len()
                    &&& forall|i: int|
                        0 <= i < mapped.len() ==> f.ensures(
                            (self.spec_ranges()[i],),
                            #[trigger] mapped[i],
                        )
                    &&& (r.spec_ranges(), r.spec_primary()) == spec_normalize(
                        mapped,
                        self.spec_primary(),
                    )
                },
    {
        let ranges = self.ranges();
        let ghost rs = self.spec_ranges();
        let n = ranges.len();
        let mut v: Vec<Range> = Vec::new();
        let mut k: usize = 0;
        while k < n
            invariant
                n == rs.len(),
                ranges@ == rs,
                forall|i: int| 0 <= i < rs.len() ==> f.requires((rs[i],)),
                k <= n,
                v@.len() == k,
                forall|i: int| 0 <= i < k ==> f.ensures((rs[i],), #[trigger] v@[i]),
            decreases n - k,
        {
            let mapped = f(ranges[k]);
            v.push(mapped);
            k = k + 1;
        }
        let primary_index = self.primary_index();
        let r = Self::from_parts(v, primary_index).normalize();
        proof {
            assert(v@.len() == rs.len());
        }
        r
    }

    /// Constructs an unnormalized selection.
    ///
    /// Ranges are kept as given until they are aligned against a text and
    /// normalized.
    pub fn new_unaligned(ranges: Vec<Range>, primary_index: usize) -> (r: Self)
        requires
            ranges@.len() > 0,
            primary_index < ranges@.len(),
        ensures
            r.spec_ranges() == ranges@,
            r.spec_primary() == primary_index,
    {
        Self::from_parts(ranges, primary_index)
    }

    /// Constructs and normalizes a selection from grapheme-aligned ranges.
    pub fn new(ranges: Vec<Range>, primary_index: usize) -> (r: Self)
        requires
            ranges@.len() > 0,
            primary_index < ranges@.len(),
        ensures
            (r.spec_ranges(), r.spec_primary()) == spec_normalize(ranges@, primary_index as nat),
    {
        Self::new_unaligned(ranges, primary_index).normalize()
    }
}


/// The pieces of `t[start..end]` between line endings, scanning from `j`:
/// each line ending closes the piece before it and is left out of every
/// piece; what follows the last line ending is a piece when it is not empty.
pub open spec fn line_pieces(t: Seq<char>, end: int, start: int, j: int) -> Seq<Range>
    decreases end - j,
{
    if j >= end {
        if start < end {
            seq![mk_range(start as usize, end as usize)]
        } else {
            seq![]
        }
    } else if t[j] == '\n' {
        let stop = if j > start && t[j - 1] == '\r' {
            j - 1
        } else {
            j
        };
        seq![mk_range(start as usize, stop as usize)] + line_pieces(t, end, j + 1, j + 1)
    } else {
        line_pieces(t, end, start, j + 1)
    }
}

/// What one range of a selection becomes when split on newlines.
pub open spec fn newline_split(t: Seq<char>, r: Range) -> Seq<Range> {
    if spec_from(r) == spec_to(r) {
        seq![r]
    } else {
        line_pieces(t, spec_to(r) as int, spec_from(r) as int, spec_from(r) as int)
    }
}

/// The ranges `rs` split on newlines, in order.
pub open spec fn newline_split_all(t: Seq<char>, rs: Seq<Range>) -> Seq<Range>
    decreases rs.len(),
{
    if rs.len() == 0 {
        seq![]
    } else {
        newline_split_all(t, rs.drop_last()) + newline_split(t, rs.last())
    }
}

proof fn lemma_line_pieces_nonempty(t: Seq<char>, end: int, start: int, j: int)
    requires
        start <= j,
        start < end,
    ensures
        line_pieces(t, end, start, j).len() > 0,
    decreases end - j,
{
    if j < end && t[j] != '\n' {
        lemma_line_pieces_nonempty(t, end, start, j + 1);
    }
}

proof fn lemma_newline_split_all_len(t: Seq<char>, rs: Seq<Range>)
    ensures
        newline_split_all(t, rs).len() >= rs.len(),
    decreases rs.len(),
{
    if rs.len() > 0 {
        lemma_newline_split_all_len(t, rs.drop_last());
        let r = rs.last();
        if spec_from(r) != spec_to(r) {
            lemma_line_pieces_nonempty(t, spec_to(r) as int, spec_from(r) as int, spec_from(r) as int);
        }
    }
}

/// Splits every range of `selection` at its line endings, leaving the line
/// endings out; points stay as they are. The primary is the first range.
pub fn split_on_newline(text: RopeSlice, selection: &Selection) -> (r: Selection)
    requires
        forall|i: int|
            0 <= i < selection.spec_ranges().len() ==> spec_to(#[trigger] selection.spec_ranges()[i])
                <= rope_text(text).len(),
    ensures
        (r.spec_ranges(), r.spec_primary()) == spec_normalize(
            newline_split_all(rope_text(text), selection.spec_ranges()),
            0,
        ),
{
    let ghost t = rope_text(text);
    let ranges = selection.ranges();
    let ghost rs = ranges@;
    let n = ranges.len();
    let mut result: Vec<Range> = Vec::new();
    let mut k: usize = 0;
    while k < n
        invariant
            n == rs.len(),
            ranges@ == rs,
            t == rope_text(text),
            forall|i: int| 0 <= i < rs.len() ==> spec_to(#[trigger] rs[i]) <= t.len(),
            k <= n,
            result@ == newline_split_all(t, rs.take(k as int)),
        decreases n - k,
    {
        let sel = ranges[k];
        proof {
            assert(rs.take(k + 1).drop_last() =~= rs.take(k as int));
        }
        let ghost before = result@;
        let sel_start = sel.from();
        let sel_end = sel.to();
        if sel_start == sel_end {
            result.push(sel);
        } else {
            let mut start = sel_start;
            let mut j = sel_start;
            while j < sel_end
                invariant
                    t == rope_text(text),
                    sel_start <= start <= j <= sel_end <= t.len(),
                    result@ + line_pieces(t, sel_end as int, start as int, j as int) == before
                        + line_pieces(t, sel_end as int, sel_start as int, sel_start as int),
                decreases sel_end - j,
            {
                let c = match rope_get_char(text, j) {
                    Some(c) => c,
                    None => ' ',
                };
                if c == '\n' {
                    let mut stop = j;
                    if j > start {
                        let p = match rope_get_char(text, j - 1) {
                            Some(p) => p,
                            None => ' ',
                        };
                        if p == '\r' {
                            stop = j - 1;
                        }
                    }
                    let ghost old_result = result@;
                    result.push(Range::new(start, stop));
                    proof {
                        assert(result@ =~= old_result + seq![mk_range(start, stop)]);
                        assert(result@ + line_pieces(t, sel_end as int, j + 1, j + 1)
                            =~= old_result + line_pieces(t, sel_end as int, start as int, j as int));
                    }
                    start = j + 1;
                }
                j = j + 1;
            }
            if start < sel_end {
                result.push(Range::new(start, sel_end));
            }
            proof {
                assert(result@ =~= before + line_pieces(
                    t,
                    sel_end as int,
                    sel_start as int,
                    sel_start as int,
                ));
            }
        }
        k = k + 1;
    }
    proof {
        assert(rs.take(n as int) =~= rs);
        lemma_newline_split_all_len(t, rs);
    }
    Selection::new(result, 0)
}


/// Flipping swaps anchor and head without changing the selected text: flipping
/// twice gives the range back, and a nonempty range changes direction.
pub proof fn lemma_flip(r: Range)
    ensures
        spec_flip(spec_flip(r)) == r,
        spec_from(spec_flip(r)) == spec_from(r),
        spec_to(spec_flip(r)) == spec_to(r),
        r.anchor != r.head ==> spec_direction(spec_flip(r)) != spec_direction(r),
{
}

/// Setting a direction changes only the direction: the selected text stays,
/// and a nonempty range then points the requested way.
pub proof fn lemma_with_direction(r: Range, d: Direction)
    ensures
        spec_from(spec_with_direction(r, d)) == spec_from(r),
        spec_to(spec_with_direction(r, d)) == spec_to(r),
        r.anchor != r.head ==> spec_direction(spec_with_direction(r, d)) == d,
{
}

/// The overlap rule of a selection set is symmetric. Adjacent nonempty ranges
/// do not overlap; a point overlaps a nonempty range exactly when it is at its
/// lower edge or inside it (not at its upper edge); two points overlap exactly
/// when they are the same edge.
pub proof fn lemma_overlap_rule(a: Range, b: Range)
    ensures
        spec_overlaps(a, b) == spec_overlaps(b, a),
        spec_from(a) < spec_to(a) && spec_from(b) < spec_to(b) && spec_to(a) == spec_from(b)
            ==> !spec_overlaps(a, b),
        a.anchor == a.head && spec_from(b) < spec_to(b) ==> (spec_overlaps(a, b) <==> spec_from(b)
            <= a.head < spec_to(b)),
        a.anchor == a.head && b.anchor == b.head ==> (spec_overlaps(a, b) <==> a.head == b.head),
{
}

/// A merge selects exactly the span of both ranges, and is backward exactly when
/// both ranges are.
pub proof fn lemma_merge_span(a: Range, b: Range)
    ensures
        spec_from(spec_merge(a, b)) == (if spec_from(a) <= spec_from(b) {
            spec_from(a)
        } else {
            spec_from(b)
        }),
        spec_to(spec_merge(a, b)) == (if spec_to(a) >= spec_to(b) {
            spec_to(a)
        } else {
            spec_to(b)
        }),
        (spec_direction(spec_merge(a, b)) == Direction::Backward) <==> (spec_direction(a)
            == Direction::Backward && spec_direction(b) == Direction::Backward),
{
}

/// Extending covers both the range and `from..to`, and keeps a nonempty
/// range's direction.
pub proof fn lemma_extend_covers(r: Range, from: usize, to: usize)
    requires
        from <= to,
    ensures
        ({
            let e = if r.anchor <= r.head {
                mk_range(
                    if r.anchor <= from { r.anchor } else { from },
                    if r.head >= to { r.head } else { to },
                )
            } else {
                mk_range(
                    if r.anchor >= to { r.anchor } else { to },
                    if r.head <= from { r.head } else { from },
                )
            };
            &&& spec_from(e) <= spec_from(r) && spec_to(r) <= spec_to(e)
            &&& spec_from(e) <= from && to <= spec_to(e)
            &&& (r.anchor != r.head ==> spec_direction(e) == spec_direction(r))
        }),
{
}

/// Aligning to graphemes: both ends land on grapheme edges; a point stays a
/// point at the nearest edge at or before it; a nonempty range grows outward
/// to the nearest edges, stays nonempty and keeps its direction; aligning
/// again changes nothing.
pub proof fn lemma_grapheme_aligned(r: Range, t: Seq<char>)
    requires
        r.anchor <= t.len(),
        r.head <= t.len(),
        t.len() <= usize::MAX,
    ensures
        is_grapheme_edge(t, spec_grapheme_aligned(r, t).anchor as int),
        is_grapheme_edge(t, spec_grapheme_aligned(r, t).head as int),
        r.anchor == r.head ==> spec_grapheme_aligned(r, t).anchor == spec_grapheme_aligned(r, t).head
            && spec_grapheme_aligned(r, t).head <= r.head,
        r.anchor != r.head ==> {
            &&& spec_from(spec_grapheme_aligned(r, t)) <= spec_from(r)
            &&& spec_to(r) <= spec_to(spec_grapheme_aligned(r, t))
            &&& spec_grapheme_aligned(r, t).anchor != spec_grapheme_aligned(r, t).head
            &&& spec_direction(spec_grapheme_aligned(r, t)) == spec_direction(r)
        },
        spec_grapheme_aligned(spec_grapheme_aligned(r, t), t) == spec_grapheme_aligned(r, t),
        r.anchor == r.head ==> forall|k: int|
            spec_grapheme_aligned(r, t).head < k <= r.head ==> !is_grapheme_edge(t, k),
        r.anchor != r.head ==> forall|k: int|
            spec_from(spec_grapheme_aligned(r, t)) < k <= spec_from(r) ==> !is_grapheme_edge(t, k),
        r.anchor != r.head ==> forall|k: int|
            spec_to(r) <= k < spec_to(spec_grapheme_aligned(r, t)) ==> !is_grapheme_edge(t, k),
{
    lemma_prev_edge(t, r.anchor as int);
    lemma_next_edge(t, r.anchor as int);
    lemma_prev_edge(t, r.head as int);
    lemma_next_edge(t, r.head as int);
}


/// `k` is where a new run of merged line spans begins: the start, the end, or a
/// span that starts more than one line after the span before it ends.
pub open spec fn run_start(spans: Seq<(usize, usize)>, k: int) -> bool {
    k == 0 || k == spans.len() || spans[k].0 - spans[k - 1].1 > 1
}

proof fn lemma_merge_line_spans_last(spans: Seq<(usize, usize)>, k: int)
    requires
        0 < k <= spans.len(),
    ensures
        merge_line_spans(spans.take(k)).len() > 0,
        merge_line_spans(spans.take(k)).last().1 == spans[k - 1].1,
{
    assert(spans.take(k).drop_last() =~= spans.take(k - 1));
}

/// The merged line spans of a selection's ranges, one run at a time.
pub struct LineRangeIter<'a> {
    ranges: &'a [Range],
    text: RopeSlice<'a>,
    next_index: usize,
}

impl<'a> LineRangeIter<'a> {
    #[verifier::type_invariant]
    spec fn inv(self) -> bool {
        &&& self.next_index <= self.ranges@.len()
        &&& forall|i: int|
            0 <= i < self.ranges@.len() ==> spec_to(#[trigger] self.ranges@[i]) <= rope_text(
                self.text,
            ).len()
        &&& lines_in_order(self.ranges@, rope_text(self.text))
        &&& run_start(line_spans(self.ranges@, rope_text(self.text)), self.next_index as int)
    }

    /// The inclusive line span of every range, in order.
    pub closed spec fn spans(self) -> Seq<(usize, usize)> {
        line_spans(self.ranges@, rope_text(self.text))
    }

    /// How many spans the iterator has consumed.
    pub closed spec fn position(self) -> nat {
        self.next_index as nat
    }

    /// The next merged line span: consecutive calls give `merge_line_spans(spans)`
    /// in order, then `None`.
    pub fn next(&mut self) -> (r: Option<(usize, usize)>)
        ensures
            final(self).spans() == old(self).spans(),
            final(self).position() <= final(self).spans().len(),
            old(self).position() == old(self).spans().len() ==> r is None && final(self).position()
                == old(self).position(),
            old(self).position() < old(self).spans().len() ==> (r matches Some(x)
                && final(self).position() > old(self).position() && merge_line_spans(
                old(self).spans().take(final(self).position() as int),
            ) == merge_line_spans(old(self).spans().take(old(self).position() as int)).push(x)),
    {
        proof {
            use_type_invariant(&*self);
        }
        let ranges = self.ranges;
        let text = self.text;
        let n = ranges.len();
        let k = self.next_index;
        if k >= n {
            return None;
        }
        let ghost spans = line_spans(ranges@, rope_text(text));
        let (start, mut end) = ranges[k].line_range(text);
        proof {
            assert(spans.take(k + 1).drop_last() =~= spans.take(k as int));
            if k > 0 {
                lemma_merge_line_spans_last(spans, k as int);
            }
        }
        let mut j = k + 1;
        while j < n
            invariant
                k < j <= n,
                n == ranges@.len(),
                spans == line_spans(ranges@, rope_text(text)),
                forall|i: int| 0 <= i < ranges@.len() ==> spec_to(#[trigger] ranges@[i]) <= rope_text(
                    text,
                ).len(),
                lines_in_order(ranges@, rope_text(text)),
                start == spans[k as int].0,
                end == spans[j - 1].1,
                merge_line_spans(spans.take(j as int)) == merge_line_spans(spans.take(k as int)).push(
                    (start, end),
                ),
            ensures
                run_start(spans, j as int),
                k < j <= n,
                merge_line_spans(spans.take(j as int)) == merge_line_spans(spans.take(k as int)).push(
                    (start, end),
                ),
            decreases n - j,
        {
            let (ns, ne) = ranges[j].line_range(text);
            proof {
                assert(line_spans(ranges@, rope_text(text))[(j - 1) + 1].0 >= line_spans(
                    ranges@,
                    rope_text(text),
                )[j - 1].1);
            }
            if ns - end <= 1 {
                proof {
                    assert(spans.take(j + 1).drop_last() =~= spans.take(j as int));
                    let prev = merge_line_spans(spans.take(k as int));
                    assert(prev.push((start, end)).update(prev.len() as int, (start, ne)) =~= prev.push(
                        (start, ne),
                    ));
                }
                end = ne;
                j = j + 1;
            } else {
                break;
            }
        }
        self.next_index = j;
        Some((start, end))
    }

    /// The remaining merged line spans, in order.
    pub fn to_vec(self) -> (r: Vec<(usize, usize)>)
        ensures
            merge_line_spans(self.spans()) == merge_line_spans(
                self.spans().take(self.position() as int),
            ) + r@,
    {
        let mut it = self;
        let ghost spans = it.spans();
        let ghost p0 = it.position();
        let mut acc: Vec<(usize, usize)> = Vec::new();
        proof {
            use_type_invariant(&it);
        }
        loop
            invariant
                it.spans() == spans,
                it.position() <= spans.len(),
                p0 <= it.position(),
                merge_line_spans(spans.take(it.position() as int)) == merge_line_spans(
                    spans.take(p0 as int),
                ) + acc@,
            ensures
                it.position() == spans.len(),
                merge_line_spans(spans.take(it.position() as int)) == merge_line_spans(
                    spans.take(p0 as int),
                ) + acc@,
            decreases spans.len() - it.position(),
        {
            let ghost before = acc@;
            match it.next() {
                None => {
                    break;
                },
                Some(x) => {
                    acc.push(x);
                    proof {
                        assert(merge_line_spans(spans.take(p0 as int)) + acc@ =~= (merge_line_spans(
                            spans.take(p0 as int),
                        ) + before).push(x));
                    }
                },
            }
        }
        proof {
            assert(spans.take(spans.len() as int) =~= spans);
        }
        acc
    }
}


/// In a normalized selection every range starts on or after the line where the
/// range before it ends, so its line ranges can be computed.
pub proof fn lemma_chained_lines_in_order(rs: Seq<Range>, t: Seq<char>)
    requires
        chained(rs),
        forall|i: int| 0 <= i < rs.len() ==> spec_to(#[trigger] rs[i]) <= t.len(),
        t.len() <= usize::MAX,
    ensures
        lines_in_order(rs, t),
{
    assert forall|i: int| 0 <= i < rs.len() - 1 implies #[trigger] line_spans(rs, t)[i + 1].0
        >= line_spans(rs, t)[i].1 by {
        let a = rs[i];
        let b = rs[i + 1];
        assert(spec_to(a) <= spec_from(b));
        lemma_prev_edge(t, spec_to(a) as int);
        let e = line_range_end(a, t);
        assert(0 <= e <= spec_from(b));
        lemma_count_lf_take_mono(t, e, spec_from(b) as int);
        lemma_count_lf_le_len(t.take(e));
        lemma_count_lf_le_len(t.take(spec_from(b) as int));
    }
}


/// How a mapped endpoint sticks to an edit that touches it: before or after
/// the inserted text.
#[derive(Debug, Copy, Clone, PartialEq, Eq, Structural)]
pub enum Assoc {
    BeforeSticky,
    AfterSticky,
}

/// Whether an endpoint is the lower or the upper edge of its range.
#[derive(Debug, Copy, Clone, PartialEq, Eq, Structural)]
pub enum EndpointRole {
    Lower,
    Upper,
}

/// The spans `(from, to)` of the changes `(from, to, inserted_len)` whose
/// inserted length differs from the length they replace.
pub open spec fn unequal_spans(changes: Seq<(usize, usize, usize)>) -> Seq<(usize, usize)>
    decreases changes.len(),
{
    if changes.len() == 0 {
        Seq::empty()
    } else {
        let c = changes.last();
        let rest = unequal_spans(changes.drop_last());
        if c.1 - c.0 != c.2 {
            rest.push((c.0, c.1))
        } else {
            rest
        }
    }
}

/// Changes in document order: each one ends at or before the next one starts.
pub open spec fn changes_in_order(changes: Seq<(usize, usize, usize)>) -> bool {
    &&& forall|i: int| 0 <= i < changes.len() ==> (#[trigger] changes[i]).0 <= changes[i].1
    &&& forall|i: int, j: int|
        0 <= i < j < changes.len() ==> (#[trigger] changes[i]).1 <= (#[trigger] changes[j]).0
}

/// Spans in document order: each one ends at or before the next one starts.
pub open spec fn spans_in_order(spans: Seq<(usize, usize)>) -> bool {
    &&& forall|i: int| 0 <= i < spans.len() ==> (#[trigger] spans[i]).0 <= spans[i].1
    &&& forall|i: int, j: int|
        0 <= i < j < spans.len() ==> (#[trigger] spans[i]).1 <= (#[trigger] spans[j]).0
}

proof fn lemma_unequal_spans_in_order(changes: Seq<(usize, usize, usize)>)
    requires
        changes_in_order(changes),
    ensures
        spans_in_order(unequal_spans(changes)),
        forall|i: int|
            0 <= i < unequal_spans(changes).len() ==> exists|k: int|
                0 <= k < changes.len() && (#[trigger] unequal_spans(changes)[i]).0 == changes[k].0
                    && unequal_spans(changes)[i].1 == changes[k].1 && (changes.len() > 0 ==> k
                    <= changes.len() - 1),
    decreases changes.len(),
{
    if changes.len() > 0 {
        let rest = changes.drop_last();
        assert(changes_in_order(rest)) by {
            assert forall|i: int, j: int| 0 <= i < j < rest.len() implies (#[trigger] rest[i]).1
                <= (#[trigger] rest[j]).0 by {
                assert(rest[i] == changes[i] && rest[j] == changes[j]);
            }
            assert forall|i: int| 0 <= i < rest.len() implies (#[trigger] rest[i]).0 <= rest[i].1 by {
                assert(rest[i] == changes[i]);
            }
        }
        lemma_unequal_spans_in_order(rest);
        let us = unequal_spans(rest);
        let c = changes.last();
        if c.1 - c.0 != c.2 {
            let all = us.push((c.0, c.1));
            assert forall|i: int| 0 <= i < us.len() implies (#[trigger] all[i]).1 <= c.0 by {
                let k = choose|k: int|
                    0 <= k < rest.len() && us[i].0 == rest[k].0 && us[i].1 == rest[k].1 && (rest.len()
                        > 0 ==> k <= rest.len() - 1);
                assert(changes[k] == rest[k]);
                assert(changes[k].1 <= changes[changes.len() - 1].0);
            }
            assert forall|i: int| 0 <= i < all.len() implies exists|k: int|
                0 <= k < changes.len() && (#[trigger] all[i]).0 == changes[k].0 && all[i].1
                    == changes[k].1 && (changes.len() > 0 ==> k <= changes.len() - 1) by {
                if i < us.len() {
                    let k = choose|k: int|
                        0 <= k < rest.len() && us[i].0 == rest[k].0 && us[i].1 == rest[k].1 && (
                        rest.len() > 0 ==> k <= rest.len() - 1);
                    assert(changes[k] == rest[k]);
                } else {
                    assert(all[i].0 == changes[changes.len() - 1].0);
                }
            }
        } else {
            assert forall|i: int| 0 <= i < us.len() implies exists|k: int|
                0 <= k < changes.len() && (#[trigger] us[i]).0 == changes[k].0 && us[i].1
                    == changes[k].1 && (changes.len() > 0 ==> k <= changes.len() - 1) by {
                let k = choose|k: int|
                    0 <= k < rest.len() && us[i].0 == rest[k].0 && us[i].1 == rest[k].1 && (rest.len()
                        > 0 ==> k <= rest.len() - 1);
                assert(changes[k] == rest[k]);
            }
        }
    }
}

/// The changes `(from, to, inserted_len)` whose inserted length differs from
/// the length they replace.
pub open spec fn changes_length(c: (usize, usize, usize)) -> bool {
    c.1 - c.0 != c.2
}

/// The span `(from, to)` of a change.
pub open spec fn change_span(c: (usize, usize, usize)) -> (usize, usize) {
    (c.0, c.1)
}

/// The spans kept for endpoint association are exactly those of every change
/// that changes the length of what it replaces, in the order of the changes,
/// whatever other changes the set holds; so an edge lies strictly inside a
/// kept span exactly when it lies strictly inside such a change.
pub proof fn lemma_unequal_spans_exact(changes: Seq<(usize, usize, usize)>)
    ensures
        unequal_spans(changes) == changes.filter(|c: (usize, usize, usize)| changes_length(c)).map_values(
            |c: (usize, usize, usize)| change_span(c),
        ),
        forall|e: usize|
            inside_spans(unequal_spans(changes), e) <==> exists|k: int|
                0 <= k < changes.len() && changes_length(#[trigger] changes[k]) && changes[k].0 < e
                    < changes[k].1,
    decreases changes.len(),
{
    let pred = |c: (usize, usize, usize)| changes_length(c);
    let f = |c: (usize, usize, usize)| change_span(c);
    reveal(Seq::filter);
    if changes.len() == 0 {
        assert(unequal_spans(changes) =~= changes.filter(pred).map_values(f));
    } else {
        let rest = changes.drop_last();
        let c = changes.last();
        lemma_unequal_spans_exact(rest);
        let us = unequal_spans(rest);
        assert(changes.filter(pred) == if pred(c) {
            rest.filter(pred).push(c)
        } else {
            rest.filter(pred)
        });
        if pred(c) {
            assert(unequal_spans(changes) =~= changes.filter(pred).map_values(f));
        } else {
            assert(unequal_spans(changes) =~= changes.filter(pred).map_values(f));
        }
        assert forall|e: usize|
            inside_spans(unequal_spans(changes), e) <==> exists|k: int|
                0 <= k < changes.len() && changes_length(#[trigger] changes[k]) && changes[k].0 < e
                    < changes[k].1 by {
            let all = unequal_spans(changes);
            if inside_spans(all, e) {
                let i = choose|i: int| 0 <= i < all.len() && (#[trigger] all[i]).0 < e < all[i].1;
                if i < us.len() {
                    assert(all[i] == us[i]);
                    assert(inside_spans(us, e));
                    let k = choose|k: int|
                        0 <= k < rest.len() && changes_length(#[trigger] rest[k]) && rest[k].0 < e
                            < rest[k].1;
                    assert(changes[k] == rest[k]);
                } else {
                    assert(changes[changes.len() - 1] == c);
                }
            }
            if exists|k: int|
                0 <= k < changes.len() && changes_length(#[trigger] changes[k]) && changes[k].0 < e
                    < changes[k].1 {
                let k = choose|k: int|
                    0 <= k < changes.len() && changes_length(#[trigger] changes[k]) && changes[k].0 < e
                        < changes[k].1;
                if k < rest.len() {
                    assert(rest[k] == changes[k]);
                    assert(inside_spans(us, e));
                    let i = choose|i: int| 0 <= i < us.len() && (#[trigger] us[i]).0 < e < us[i].1;
                    assert(all[i] == us[i]);
                } else {
                    assert(all[all.len() - 1] == (c.0, c.1));
                }
            }
        }
    }
}

/// The replacements of a change set that change the length of what they
/// replace, in document order.
pub struct UnequalReplacements(Vec<(usize, usize)>);

impl UnequalReplacements {
    #[verifier::type_invariant]
    spec fn inv(self) -> bool {
        spans_in_order(self.0@)
    }

    /// The kept spans `(from, to)`.
    pub closed spec fn spans(self) -> Seq<(usize, usize)> {
        self.0@
    }

    /// Keeps the changes `(from, to, inserted_len)` whose inserted length
    /// differs from the replaced length.
    pub fn new(changes: &[(usize, usize, usize)]) -> (r: Self)
        requires
            changes_in_order(changes@),
        ensures
            r.spans() == unequal_spans(changes@),
            r.spans() == changes@.filter(|c: (usize, usize, usize)| changes_length(c)).map_values(
                |c: (usize, usize, usize)| change_span(c),
            ),
    {
        let mut kept: Vec<(usize, usize)> = Vec::new();
        let n = changes.len();
        let mut i: usize = 0;
        while i < n
            invariant
                n == changes@.len(),
                i <= n,
                changes_in_order(changes@),
                kept@ == unequal_spans(changes@.take(i as int)),
            decreases n - i,
        {
            let (from, to, inserted_len) = changes[i];
            proof {
                assert(changes@.take(i + 1).drop_last() =~= changes@.take(i as int));
            }
            if to - from != inserted_len {
                kept.push((from, to));
            }
            i = i + 1;
        }
        proof {
            assert(changes@.take(n as int) =~= changes@);
            lemma_unequal_spans_in_order(changes@);
            lemma_unequal_spans_exact(changes@);
        }
        UnequalReplacements(kept)
    }

    /// Whether `position` lies strictly inside one of the kept spans.
    pub fn contains(&self, position: usize) -> (r: bool)
        ensures
            r == (exists|i: int|
                0 <= i < self.spans().len() && (#[trigger] self.spans()[i]).0 < position
                    < self.spans()[i].1),
    {
        proof {
            use_type_invariant(self);
        }
        let spans = &self.0;
        let ghost sp = spans@;
        let mut lo: usize = 0;
        let mut hi: usize = spans.len();
        while lo < hi
            invariant
                sp == spans@,
                spans_in_order(sp),
                0 <= lo <= hi <= sp.len(),
                forall|i: int| 0 <= i < lo ==> (#[trigger] sp[i]).0 < position,
                forall|i: int| hi <= i < sp.len() ==> (#[trigger] sp[i]).0 >= position,
            decreases hi - lo,
        {
            let mid = lo + (hi - lo) / 2;
            if spans[mid].0 < position {
                proof {
                    assert forall|i: int| 0 <= i <= mid implies (#[trigger] sp[i]).0 < position by {
                        if i < mid {
                            assert(sp[i].1 <= sp[mid as int].0);
                        }
                    }
                }
                lo = mid + 1;
            } else {
                hi = mid;
            }
        }
        let index = lo;
        let r = index != 0 && position < spans[index - 1].1;
        proof {
            if r {
                assert(sp[index - 1].0 < position);
                assert(self.spans()[index - 1] == sp[index - 1]);
            }
            if !r {
                assert forall|i: int| 0 <= i < sp.len() && (#[trigger] sp[i]).0 < position implies !(
                position < sp[i].1) by {
                    assert(i < index);
                    if i < index - 1 {
                        assert(sp[i].1 <= sp[index - 1].0);
                    }
                }
            }
        }
        r
    }
}

/// The association of an endpoint with role `role` that is, or is not, inside
/// a length-changing replacement.
pub open spec fn spec_endpoint_assoc(role: EndpointRole, inside: bool) -> Assoc {
    match (role, inside) {
        (EndpointRole::Lower, false) | (EndpointRole::Upper, true) => Assoc::AfterSticky,
        (EndpointRole::Upper, false) | (EndpointRole::Lower, true) => Assoc::BeforeSticky,
    }
}

/// The association for mapping an endpoint at `position` with role `role`: a
/// lower edge sticks after an edit at it and an upper edge before it, the other
/// way round inside a replacement that changes length.
pub fn endpoint_assoc(
    unequal_replacements: &UnequalReplacements,
    position: usize,
    role: EndpointRole,
) -> (r: Assoc)
    ensures
        r == spec_endpoint_assoc(
            role,
            exists|i: int|
                0 <= i < unequal_replacements.spans().len()
                    && (#[trigger] unequal_replacements.spans()[i]).0 < position
                    < unequal_replacements.spans()[i].1,
        ),
{
    let inside_unequal_replacement = unequal_replacements.contains(position);
    match (role, inside_unequal_replacement) {
        (EndpointRole::Lower, false) | (EndpointRole::Upper, true) => Assoc::AfterSticky,
        (EndpointRole::Upper, false) | (EndpointRole::Lower, true) => Assoc::BeforeSticky,
    }
}


/// `position` lies strictly inside one of `spans`.
pub open spec fn inside_spans(spans: Seq<(usize, usize)>, position: usize) -> bool {
    exists|i: int| 0 <= i < spans.len() && (#[trigger] spans[i]).0 < position < spans[i].1
}

/// The associations `(anchor, head)` for mapping `r` through changes whose
/// length-changing replacements are `spans`: both ends of a point stick after
/// an insertion at it; otherwise each end is associated by its role as the
/// lower or the upper edge.
pub open spec fn spec_endpoint_assocs(r: Range, spans: Seq<(usize, usize)>) -> (Assoc, Assoc) {
    if r.anchor == r.head {
        (Assoc::AfterSticky, Assoc::AfterSticky)
    } else if r.anchor < r.head {
        (
            spec_endpoint_assoc(EndpointRole::Lower, inside_spans(spans, r.anchor)),
            spec_endpoint_assoc(EndpointRole::Upper, inside_spans(spans, r.head)),
        )
    } else {
        (
            spec_endpoint_assoc(EndpointRole::Upper, inside_spans(spans, r.anchor)),
            spec_endpoint_assoc(EndpointRole::Lower, inside_spans(spans, r.head)),
        )
    }
}

impl Range {
    /// The associations `(anchor, head)` with which the first phase of mapping
    /// moves this range's endpoints through a change set.
    pub fn endpoint_assocs(&self, unequal_replacements: &UnequalReplacements) -> (r: (Assoc, Assoc))
        ensures
            r == spec_endpoint_assocs(*self, unequal_replacements.spans()),
    {
        if self.anchor == self.head {
            (Assoc::AfterSticky, Assoc::AfterSticky)
        } else if self.anchor < self.head {
            let lower = endpoint_assoc(unequal_replacements, self.anchor, EndpointRole::Lower);
            let upper = endpoint_assoc(unequal_replacements, self.head, EndpointRole::Upper);
            (lower, upper)
        } else {
            let lower = endpoint_assoc(unequal_replacements, self.head, EndpointRole::Lower);
            let upper = endpoint_assoc(unequal_replacements, self.anchor, EndpointRole::Upper);
            (upper, lower)
        }
    }
}

/// Endpoint association follows the role of an edge, lower or upper, not
/// whether it is stored as the anchor or the head: flipping a range swaps the
/// associations of its two fields.
pub proof fn lemma_endpoint_assocs_follow_roles(r: Range, spans: Seq<(usize, usize)>)
    ensures
        spec_endpoint_assocs(spec_flip(r), spans) == (
            spec_endpoint_assocs(r, spans).1,
            spec_endpoint_assocs(r, spans).0,
        ),
{
}


/// The shape of a change set, as changes `(from, to, inserted_len)` of the old
/// text: each one replaces `from..to` by `inserted_len` chars and changes
/// something, and each one ends before the next one starts.
pub open spec fn change_set_shape(changes: Seq<(usize, usize, usize)>) -> bool {
    &&& forall|i: int|
        0 <= i < changes.len() ==> (#[trigger] changes[i]).0 <= changes[i].1 && (changes[i].0
            < changes[i].1 || changes[i].2 > 0)
    &&& forall|i: int, j: int|
        0 <= i < j < changes.len() ==> (#[trigger] changes[i]).1 < (#[trigger] changes[j]).0
}

/// Where an edge `p` with `x <= p <= y` goes when the chars `x..y` are
/// replaced by `n` chars. An insertion (`x == y`) at the edge leaves it before
/// the inserted text or moves it after, as `assoc` says. Otherwise the start
/// of the replaced text stays, its end moves to the end of the new text, and
/// an edge strictly inside keeps its offset when the lengths match, else goes
/// to the start (sticking before) or the end (sticking after) of the new text.
pub open spec fn map_in_change(x: int, y: int, n: int, p: int, assoc: Assoc) -> int {
    if x == y {
        if assoc == Assoc::AfterSticky {
            x + n
        } else {
            x
        }
    } else if p == x {
        x
    } else if p == y {
        x + n
    } else if n == y - x {
        p
    } else if assoc == Assoc::AfterSticky {
        x + n
    } else {
        x
    }
}

/// Where the edge `p` of the old text goes through the changes from index
/// `i` on, the changes before them having moved the text by `delta`.
pub open spec fn map_pos_from(
    changes: Seq<(usize, usize, usize)>,
    i: int,
    p: int,
    assoc: Assoc,
    delta: int,
) -> int
    decreases changes.len() - i,
{
    if i >= changes.len() || i < 0 {
        p + delta
    } else {
        let c = changes[i];
        if p < c.0 {
            p + delta
        } else if p > c.1 {
            map_pos_from(changes, i + 1, p, assoc, delta + c.2 - (c.1 - c.0))
        } else {
            delta + map_in_change(c.0 as int, c.1 as int, c.2 as int, p, assoc)
        }
    }
}

/// Where the edge `p` of the old text goes through `changes`: the changes
/// before it move it by the length they add or remove, and a change that
/// touches it places it as `map_in_change` says.
pub open spec fn spec_map_pos(changes: Seq<(usize, usize, usize)>, p: int, assoc: Assoc) -> int {
    map_pos_from(changes, 0, p, assoc, 0)
}

proof fn lemma_map_pos_lower(
    changes: Seq<(usize, usize, usize)>,
    i: int,
    p: int,
    assoc: Assoc,
    d: int,
    m: int,
)
    requires
        change_set_shape(changes),
        0 <= i,
        m <= p,
        i < changes.len() ==> m <= changes[i].0,
    ensures
        map_pos_from(changes, i, p, assoc, d) >= m + d,
    decreases changes.len() - i,
{
    if i < changes.len() {
        let c = changes[i];
        if p > c.1 {
            if i + 1 < changes.len() {
                assert(changes[i].1 < changes[i + 1].0);
            }
            lemma_map_pos_lower(changes, i + 1, p, assoc, d + c.2 - (c.1 - c.0), c.1 as int);
        }
    }
}

/// Maps the edge `pos` of the old text through `changes`.
fn map_pos(changes: &[(usize, usize, usize)], pos: usize, assoc: Assoc) -> (r: usize)
    requires
        change_set_shape(changes@),
        spec_map_pos(changes@, pos as int, assoc) <= usize::MAX,
    ensures
        r == spec_map_pos(changes@, pos as int, assoc),
{
    let ghost cs = changes@;
    let ghost target = spec_map_pos(cs, pos as int, assoc);
    let mut old_mark: usize = 0;
    let mut new_mark: usize = 0;
    let mut i: usize = 0;
    proof {
        lemma_map_pos_lower(cs, 0, pos as int, assoc, 0, 0);
    }
    while i < changes.len()
        invariant
            cs == changes@,
            change_set_shape(cs),
            i <= cs.len(),
            old_mark <= pos,
            i < cs.len() ==> old_mark <= cs[i as int].0,
            map_pos_from(cs, i as int, pos as int, assoc, new_mark - old_mark) == target,
            target == spec_map_pos(cs, pos as int, assoc),
            target <= usize::MAX,
            target >= new_mark,
        decreases cs.len() - i,
    {
        let (x, y, n) = changes[i];
        let ghost d = new_mark - old_mark;
        assert(cs[i as int] == (x, y, n));
        if pos < x {
            assert(map_pos_from(cs, i as int, pos as int, assoc, d) == pos + d);
            return pos - old_mark + new_mark;
        }
        if pos <= y {
            proof {
                assert(map_pos_from(cs, i as int, pos as int, assoc, d) == d + map_in_change(
                    x as int,
                    y as int,
                    n as int,
                    pos as int,
                    assoc,
                ));
                assert(map_in_change(x as int, y as int, n as int, pos as int, assoc) >= x);
            }
            let base = x - old_mark + new_mark;
            let r = if x == y {
                if assoc == Assoc::AfterSticky {
                    base + n
                } else {
                    base
                }
            } else if pos == x {
                base
            } else if pos == y {
                base + n
            } else if n == y - x {
                base + (pos - x)
            } else if assoc == Assoc::AfterSticky {
                base + n
            } else {
                base
            };
            return r;
        }
        proof {
            if i + 1 < cs.len() {
                assert(cs[i as int].1 < cs[i + 1].0);
            }
            lemma_map_pos_lower(cs, i + 1, pos as int, assoc, d + n - (y - x), y as int);
        }
        new_mark = x - old_mark + new_mark + n;
        old_mark = y;
        i = i + 1;
    }
    pos - old_mark + new_mark
}

/// A range mapped through `changes`, its endpoints moved independently with
/// the associations of `spec_endpoint_assocs`. No change leaves the range as
/// it is; otherwise its visual position is dropped.
pub open spec fn spec_range_map(r: Range, changes: Seq<(usize, usize, usize)>) -> Range {
    if changes.len() == 0 {
        r
    } else {
        let assocs = spec_endpoint_assocs(r, unequal_spans(changes));
        Range {
            anchor: spec_map_pos(changes, r.anchor as int, assocs.0) as usize,
            head: spec_map_pos(changes, r.head as int, assocs.1) as usize,
            old_visual_position: None,
        }
    }
}

/// The mapped endpoints of `r` fit in a `usize`.
pub open spec fn range_map_fits(r: Range, changes: Seq<(usize, usize, usize)>) -> bool {
    let assocs = spec_endpoint_assocs(r, unequal_spans(changes));
    changes.len() == 0 || (spec_map_pos(changes, r.anchor as int, assocs.0) <= usize::MAX
        && spec_map_pos(changes, r.head as int, assocs.1) <= usize::MAX)
}

/// Every range of `ranges` mapped through `changes`.
pub open spec fn mapped_all(ranges: Seq<Range>, changes: Seq<(usize, usize, usize)>) -> Seq<Range> {
    Seq::new(ranges.len(), |i: int| spec_range_map(ranges[i], changes))
}

proof fn lemma_shape_in_order(changes: Seq<(usize, usize, usize)>)
    requires
        change_set_shape(changes),
    ensures
        changes_in_order(changes),
{
    assert forall|i: int, j: int| 0 <= i < j < changes.len() implies (#[trigger] changes[i]).1
        <= (#[trigger] changes[j]).0 by {
        assert(changes[i].1 < changes[j].0);
    }
}

impl Range {
    /// Maps the range through the changes `(from, to, inserted_len)` of a
    /// change set: each endpoint moves on its own, sticking to an edit at it
    /// as its role says (see `spec_endpoint_assocs` and `spec_map_pos`).
    pub fn map(self, changes: &[(usize, usize, usize)]) -> (r: Self)
        requires
            change_set_shape(changes@),
            range_map_fits(self, changes@),
        ensures
            r == spec_range_map(self, changes@),
    {
        if changes.len() == 0 {
            return self;
        }
        proof {
            lemma_shape_in_order(changes@);
        }
        let unequal_replacements = UnequalReplacements::new(changes);
        let (anchor_assoc, head_assoc) = self.endpoint_assocs(&unequal_replacements);
        let anchor = map_pos(changes, self.anchor, anchor_assoc);
        let head = map_pos(changes, self.head, head_assoc);
        Range { anchor, head, old_visual_position: None }
    }
}

impl Selection {
    /// Maps every range through the changes `(from, to, inserted_len)` of a
    /// change set, without aligning or normalizing: the first phase of
    /// mapping a selection.
    pub fn map_no_normalize(self, changes: &[(usize, usize, usize)]) -> (r: Self)
        requires
            change_set_shape(changes@),
            forall|i: int|
                0 <= i < self.spec_ranges().len() ==> range_map_fits(
                    #[trigger] self.spec_ranges()[i],
                    changes@,
                ),
        ensures
            r.spec_ranges() == mapped_all(self.spec_ranges(), changes@),
            r.spec_primary() == self.spec_primary(),
    {
        proof {
            use_type_invariant(&self);
        }
        let ranges = self.ranges();
        let ghost rs = self.spec_ranges();
        let n = ranges.len();
        let mut v: Vec<Range> = Vec::new();
        let mut k: usize = 0;
        while k < n
            invariant
                n == rs.len(),
                ranges@ == rs,
                change_set_shape(changes@),
                forall|i: int| 0 <= i < rs.len() ==> range_map_fits(#[trigger] rs[i], changes@),
                k <= n,
                v@ == mapped_all(rs, changes@).take(k as int),
            decreases n - k,
        {
            v.push(ranges[k].map(changes));
            proof {
                assert(mapped_all(rs, changes@).take(k + 1) =~= mapped_all(rs, changes@).take(
                    k as int,
                ).push(spec_range_map(rs[k as int], changes@)));
            }
            k = k + 1;
        }
        proof {
            assert(v@ =~= mapped_all(rs, changes@));
        }
        let primary_index = self.primary_index();
        Self::from_parts(v, primary_index)
    }

    /// Maps the selection through the changes `(from, to, inserted_len)` of a
    /// change set whose result is `new_text`: every range is mapped, then
    /// aligned to the grapheme edges of the new text, then the whole set is
    /// normalized once.
    pub fn map(self, changes: &[(usize, usize, usize)], new_text: RopeSlice) -> (r: Self)
        requires
            change_set_shape(changes@),
            forall|i: int|
                0 <= i < self.spec_ranges().len() ==> range_map_fits(
                    #[trigger] self.spec_ranges()[i],
                    changes@,
                ),
            first_out_of_bounds(mapped_all(self.spec_ranges(), changes@), rope_text(new_text).len())
                is None,
        ensures
            (r.spec_ranges(), r.spec_primary()) == spec_normalize(
                aligned_all(mapped_all(self.spec_ranges(), changes@), rope_text(new_text)),
                self.spec_primary(),
            ),
    {
        let mapped = self.map_no_normalize(changes);
        let ghost ms = mapped.spec_ranges();
        proof {
            lemma_in_bounds(ms, rope_text(new_text).len());
            use_type_invariant(&mapped);
        }
        let ranges = mapped.ranges();
        let n = ranges.len();
        let mut aligned: Vec<Range> = Vec::new();
        let mut k: usize = 0;
        while k < n
            invariant
                n == ms.len(),
                ranges@ == ms,
                k <= n,
                forall|j: int|
                    0 <= j < n ==> (#[trigger] ms[j]).anchor <= rope_text(new_text).len()
                        && ms[j].head <= rope_text(new_text).len(),
                aligned@ == aligned_all(ms, rope_text(new_text)).take(k as int),
            decreases n - k,
        {
            aligned.push(ranges[k].grapheme_aligned(new_text));
            proof {
                assert(aligned_all(ms, rope_text(new_text)).take(k + 1) =~= aligned_all(
                    ms,
                    rope_text(new_text),
                ).take(k as int).push(spec_grapheme_aligned(ms[k as int], rope_text(new_text))));
            }
            k = k + 1;
        }
        proof {
            assert(aligned@ =~= aligned_all(ms, rope_text(new_text)));
        }
        let primary_index = mapped.primary_index();
        Self::from_parts(aligned, primary_index).normalize()
    }
}

proof fn lemma_map_pos_shift(
    changes: Seq<(usize, usize, usize)>,
    i: int,
    p: int,
    assoc: Assoc,
    d: int,
)
    requires
        0 <= i,
    ensures
        map_pos_from(changes, i, p, assoc, d) == map_pos_from(changes, i, p, assoc, 0) + d,
    decreases changes.len() - i,
{
    if i < changes.len() {
        let c = changes[i];
        if p > c.1 {
            lemma_map_pos_shift(changes, i + 1, p, assoc, d + c.2 - (c.1 - c.0));
            lemma_map_pos_shift(changes, i + 1, p, assoc, c.2 - (c.1 - c.0));
        }
    }
}

proof fn lemma_map_pos_drop_first(
    changes: Seq<(usize, usize, usize)>,
    i: int,
    p: int,
    assoc: Assoc,
    d: int,
)
    requires
        changes.len() > 0,
        0 <= i,
    ensures
        map_pos_from(changes, i + 1, p, assoc, d) == map_pos_from(changes.drop_first(), i, p, assoc, d),
    decreases changes.len() - i,
{
    if i + 1 < changes.len() {
        let c = changes[i + 1];
        assert(changes.drop_first()[i] == c);
        if p > c.1 {
            lemma_map_pos_drop_first(changes, i + 1, p, assoc, d + c.2 - (c.1 - c.0));
        }
    }
}

/// Mapping an edge through several changes goes one change at a time: a first
/// change after the edge leaves it where it is; a first change wholly before
/// it moves it by the length that change adds or removes, on top of where the
/// other changes alone take it; and a first change that touches it places it
/// as that change alone does.
pub proof fn lemma_map_pos_through_first_change(
    changes: Seq<(usize, usize, usize)>,
    p: int,
    assoc: Assoc,
)
    requires
        changes.len() > 0,
        change_set_shape(changes),
        0 <= p,
    ensures
        p < changes[0].0 ==> spec_map_pos(changes, p, assoc) == p,
        p > changes[0].1 ==> spec_map_pos(changes, p, assoc) == spec_map_pos(
            changes.drop_first(),
            p,
            assoc,
        ) + changes[0].2 - (changes[0].1 - changes[0].0),
        changes[0].0 <= p <= changes[0].1 ==> spec_map_pos(changes, p, assoc) == spec_map_pos(
            seq![changes[0]],
            p,
            assoc,
        ),
{
    let c = changes[0];
    reveal_with_fuel(map_pos_from, 2);
    assert(seq![c][0] == c);
    if p > c.1 {
        let d = c.2 - (c.1 - c.0);
        lemma_map_pos_shift(changes, 1, p, assoc, d);
        lemma_map_pos_drop_first(changes, 0, p, assoc, 0);
    }
}

proof fn lemma_one_change_spans(x: usize, y: usize, n: usize, e: usize)
    ensures
        inside_spans(unequal_spans(seq![(x, y, n)]), e) == (x < e < y && n != y - x),
{
    let cs = seq![(x, y, n)];
    reveal_with_fuel(unequal_spans, 2);
    assert(cs.drop_last() =~= Seq::<(usize, usize, usize)>::empty());
    let sp = unequal_spans(cs);
    if y - x != n {
        assert(sp =~= seq![(x, y)]);
        if x < e < y {
            assert(sp[0] == (x, y));
        }
    } else {
        assert(sp =~= Seq::<(usize, usize)>::empty());
    }
}

/// Mapping a point through one change that replaces `x..y` by `n` chars: an
/// edit after the point leaves it, one before it moves it by the length it
/// adds or removes, an insertion at it moves it after the inserted text, a
/// replacement or deletion leaves a point at its start there and moves one
/// at its end to the end of the new text, and a point strictly inside keeps
/// its offset when the lengths match, else goes to the end of the new text.
pub proof fn lemma_map_point_through_change(x: usize, y: usize, n: usize, p: usize)
    requires
        change_set_shape(seq![(x, y, n)]),
        range_map_fits(mk_range(p, p), seq![(x, y, n)]),
    ensures
        ({
            let r = spec_range_map(mk_range(p, p), seq![(x, y, n)]);
            &&& r.anchor == r.head
            &&& r.old_visual_position is None
            &&& p < x ==> r.head == p
            &&& p > y ==> r.head == p + n - (y - x)
            &&& x == y && p == x ==> r.head == x + n
            &&& x < y && p == x ==> r.head == x
            &&& x < y && p == y ==> r.head == x + n
            &&& x < p < y && n == y - x ==> r.head == p
            &&& x < p < y && n != y - x ==> r.head == x + n
        }),
{
    reveal_with_fuel(map_pos_from, 2);
    assert(seq![(x, y, n)][0] == (x, y, n));
}

/// Mapping a forward range `a..b` through one change that replaces `x..y` by
/// `n` chars. An edit at either edge stays outside the range: the lower edge
/// moves after an insertion at it and the upper edge stays before one; an
/// insertion strictly inside becomes selected. An edge strictly inside a
/// replacement of the same length keeps its offset; inside one that changes
/// length, the lower edge goes to the start and the upper edge to the end of
/// the new text, so a range equal to the replaced text selects the new text.
pub proof fn lemma_map_range_through_change(x: usize, y: usize, n: usize, a: usize, b: usize)
    requires
        change_set_shape(seq![(x, y, n)]),
        a < b,
        range_map_fits(mk_range(a, b), seq![(x, y, n)]),
    ensures
        ({
            let r = spec_range_map(mk_range(a, b), seq![(x, y, n)]);
            let m = y - x;
            &&& r.old_visual_position is None
            &&& a < x ==> r.anchor == a
            &&& a > y ==> r.anchor == a + n - m
            &&& x == y && a == x ==> r.anchor == x + n
            &&& x < y && a == x ==> r.anchor == x
            &&& x < y && a == y ==> r.anchor == x + n
            &&& x < a < y ==> r.anchor == (if n == m {
                a as int
            } else {
                x as int
            })
            &&& b < x ==> r.head == b
            &&& b > y ==> r.head == b + n - m
            &&& x == y && b == x ==> r.head == x
            &&& x < y && b == x ==> r.head == x
            &&& x < y && b == y ==> r.head == x + n
            &&& x < b < y ==> r.head == (if n == m {
                b as int
            } else {
                (x + n) as int
            })
        }),
{
    reveal_with_fuel(map_pos_from, 2);
    assert(seq![(x, y, n)][0] == (x, y, n));
    lemma_one_change_spans(x, y, n, a);
    lemma_one_change_spans(x, y, n, b);
}

/// Mapping follows the roles of the edges, not which of them is the anchor:
/// mapping a flipped range gives the flipped mapped range.
pub proof fn lemma_map_follows_roles(r: Range, changes: Seq<(usize, usize, usize)>)
    ensures
        spec_range_map(spec_flip(r), changes) == spec_flip(spec_range_map(r, changes)),
{
    lemma_endpoint_assocs_follow_roles(r, unequal_spans(changes));
}

proof fn lemma_in_bounds(rs: Seq<Range>, len: nat)
    requires
        first_out_of_bounds(rs, len) is None,
    ensures
        forall|k: int| 0 <= k < rs.len() ==> (#[trigger] rs[k]).anchor <= len && rs[k].head <= len,
    decreases rs.len(),
{
    if rs.len() > 0 {
        lemma_in_bounds(rs.drop_first(), len);
        assert forall|k: int| 0 <= k < rs.len() implies (#[trigger] rs[k]).anchor <= len && rs[k].head
            <= len by {
            if k > 0 {
                assert(rs[k] == rs.drop_first()[k - 1]);
            }
        }
    }
}

/// Validation reports no endpoint past the end of a text of `len` chars
/// exactly when every anchor and head is within it; an endpoint it reports is
/// an anchor or head past the end, the first one in order.
pub proof fn lemma_first_out_of_bounds(rs: Seq<Range>, len: nat)
    ensures
        first_out_of_bounds(rs, len) is None <==> forall|k: int|
            0 <= k < rs.len() ==> (#[trigger] rs[k]).anchor <= len && rs[k].head <= len,
        first_out_of_bounds(rs, len) matches Some(e) ==> e > len && exists|k: int|
            0 <= k < rs.len() && ((#[trigger] rs[k]).anchor == e || rs[k].head == e) && forall|j: int|
                0 <= j < k ==> (#[trigger] rs[j]).anchor <= len && rs[j].head <= len,
    decreases rs.len(),
{
    if rs.len() > 0 {
        let rest = rs.drop_first();
        lemma_first_out_of_bounds(rest, len);
        assert forall|k: int| 0 < k < rs.len() implies #[trigger] rs[k] == rest[k - 1] by {}
        if first_out_of_bounds(rs, len) is None {
            lemma_in_bounds(rs, len);
        } else if rs[0].anchor > len || rs[0].head > len {
            assert(rs[0].anchor == first_out_of_bounds(rs, len)->0 || rs[0].head == first_out_of_bounds(
                rs,
                len,
            )->0);
        } else {
            let e = first_out_of_bounds(rs, len)->0;
            let k = choose|k: int|
                0 <= k < rest.len() && ((#[trigger] rest[k]).anchor == e || rest[k].head == e)
                    && forall|j: int| 0 <= j < k ==> (#[trigger] rest[j]).anchor <= len && rest[j].head <= len;
            assert(rs[k + 1] == rest[k]);
            assert forall|j: int| 0 <= j < k + 1 implies (#[trigger] rs[j]).anchor <= len && rs[j].head
                <= len by {
                if j > 0 {
                    assert(rs[j] == rest[j - 1]);
                }
            }
            assert(!(rest[k].anchor <= len && rest[k].head <= len));
        }
    }
}

/// Validated, aligned and normalized ranges satisfy the invariants of a
/// stored selection: every anchor and head is a grapheme edge of the text, the
/// ranges are ordered by lower edge without overlapping, and the primary index
/// is in bounds.
pub proof fn lemma_validated_selection_invariants(rs: Seq<Range>, p: nat, t: Seq<char>)
    requires
        p < rs.len(),
        first_out_of_bounds(rs, t.len()) is None,
        t.len() <= usize::MAX,
    ensures
        chained(spec_normalize(aligned_all(rs, t), p).0),
        spec_normalize(aligned_all(rs, t), p).1 < spec_normalize(aligned_all(rs, t), p).0.len(),
        forall|i: int|
            0 <= i < spec_normalize(aligned_all(rs, t), p).0.len() ==> is_grapheme_edge(
                t,
                (#[trigger] spec_normalize(aligned_all(rs, t), p).0[i]).anchor as int,
            ) && is_grapheme_edge(t, spec_normalize(aligned_all(rs, t), p).0[i].head as int),
{
    let al = aligned_all(rs, t);
    let out = spec_normalize(al, p).0;
    lemma_in_bounds(rs, t.len());
    assert forall|k: int| 0 <= k < al.len() implies is_grapheme_edge(t, spec_from(#[trigger] al[k]) as int)
        && is_grapheme_edge(t, spec_to(al[k]) as int) by {
        lemma_grapheme_aligned(rs[k], t);
    }
    lemma_normalize_shape(al, p);
    lemma_normalize_bounds(al, p);
    assert forall|i: int| 0 <= i < out.len() implies is_grapheme_edge(t, (#[trigger] out[i]).anchor as int)
        && is_grapheme_edge(t, out[i].head as int) by {
        assert(some_from(al, spec_from(out[i])));
        assert(some_to(al, spec_to(out[i])));
        let a = choose|k: int| 0 <= k < al.len() && spec_from(#[trigger] al[k]) == spec_from(out[i]);
        let b = choose|k: int| 0 <= k < al.len() && spec_to(#[trigger] al[k]) == spec_to(out[i]);
    }
}

} // verus!
