//! Cursor motions: the shape of a motion's result and the motions themselves.

use crate::graphemes::{
    nth_next_edge, nth_next_grapheme_boundary, nth_prev_edge, nth_prev_grapheme_boundary, prev_edge,
    prev_grapheme_boundary,
};
use crate::selection::{byte_range_at_edge, mk_range, spec_from, spec_to, Range};
use crate::chars::{
    categorize_char, char_is_line_ending, char_is_lowercase, char_is_uppercase,
    char_is_whitespace, is_line_ending, lowercase, spec_categorize, uppercase, white_space,
    CharCategory,
};
use crate::text::{
    is_line_start, lemma_count_lf_take_mono, lemma_line_of_bound, lemma_line_start,
    lemma_line_start_exists,
    lemma_line_starts_ordered, line_count, line_of, line_start, rope_get_char, rope_len_chars,
    rope_len_lines, rope_line_to_char, rope_text, is_char_of_byte, rope_byte_to_char,
    rope_len_bytes, utf8_len,
};
use ropey::RopeSlice;
use vstd::prelude::*;

verus! {

#[derive(Debug, Copy, Clone, PartialEq, Eq, Structural)]
pub enum Direction {
    Forward,
    Backward,
}

#[derive(Debug, Copy, Clone, PartialEq, Eq, Structural)]
pub enum Movement {
    Extend,
    Move,
}


/// Normal-mode shape for a motion that computes one destination edge.
#[derive(Debug, Copy, Clone, PartialEq, Eq, Structural)]
pub enum DestinationMotion {
    /// Select the half-open interval traveled by the cursor.
    LinearSelecting,
    /// Relocate the cursor as a point.
    Relocation,
}

/// The range a destination motion of shape `m` produces from `range`.
pub open spec fn spec_destination(
    m: DestinationMotion,
    range: Range,
    destination: usize,
    movement: Movement,
) -> Range {
    if movement == Movement::Extend {
        mk_range(range.anchor, destination)
    } else {
        match m {
            DestinationMotion::LinearSelecting => mk_range(range.head, destination),
            DestinationMotion::Relocation => mk_range(destination, destination),
        }
    }
}

impl DestinationMotion {
    /// Applies this normal-mode shape, or extension in Select mode.
    ///
    /// `destination` must be an in-bounds grapheme edge in the same document as
    /// `range`; this method does not validate or align it.
    pub fn apply(self, range: Range, destination: usize, movement: Movement) -> (r: Range)
        ensures
            r == spec_destination(self, range, destination, movement),
    {
        if movement == Movement::Extend {
            return Extension.apply(range, destination);
        }
        match self {
            Self::LinearSelecting => Range::new(range.head, destination),
            Self::Relocation => Range::point(destination),
        }
    }
}

/// Builds the range produced by extending an existing selection.
#[derive(Debug, Copy, Clone)]
pub struct Extension;

impl Extension {
    /// Preserves the input anchor and moves its head to `destination`.
    ///
    /// `destination` must be an in-bounds grapheme edge in the same document as
    /// `range`; this method does not validate or align it.
    pub fn apply(self, range: Range, destination: usize) -> (r: Range)
        ensures
            r == mk_range(range.anchor, destination),
    {
        Range::new(range.anchor, destination)
    }
}

/// Selects a target's natural half-open range with an explicit arrival edge.
#[derive(Debug, Copy, Clone)]
pub struct TargetSelection {
    /// Natural lower edge of the target.
    from: usize,
    /// Natural upper edge of the target.
    to: usize,
    /// Direction of travel, or `None` for a nondirectional target.
    direction: Option<Direction>,
}

impl TargetSelection {
    pub closed spec fn spec_from(self) -> usize {
        self.from
    }

    pub closed spec fn spec_to(self) -> usize {
        self.to
    }

    pub closed spec fn spec_direction(self) -> Option<Direction> {
        self.direction
    }

    /// Creates a directional target selection.
    ///
    /// The target must contain in-bounds grapheme edges from one document.
    pub fn directional(target: Range, direction: Direction) -> (r: Self)
        ensures
            r.spec_from() == spec_from(target),
            r.spec_to() == spec_to(target),
            r.spec_direction() == Some(direction),
    {
        Self { from: target.from(), to: target.to(), direction: Some(direction) }
    }

    /// Creates a nondirectional target selection whose head is at its lower edge.
    ///
    /// The target must contain in-bounds grapheme edges from one document.
    pub fn nondirectional(target: Range) -> (r: Self)
        ensures
            r.spec_from() == spec_from(target),
            r.spec_to() == spec_to(target),
            r.spec_direction() == None::<Direction>,
    {
        Self { from: target.from(), to: target.to(), direction: None }
    }

    /// Applies normal-mode target selection or select-mode extension: the head
    /// lands on the upper edge when travelling forward and on the lower edge
    /// otherwise; in normal mode the whole target is selected.
    pub fn apply(self, range: Range, movement: Movement) -> (r: Range)
        ensures
            movement == Movement::Extend ==> r == mk_range(
                range.anchor,
                if self.spec_direction() == Some(Direction::Forward) {
                    self.spec_to()
                } else {
                    self.spec_from()
                },
            ),
            movement == Movement::Move ==> r == (if self.spec_direction() == Some(
                Direction::Forward,
            ) {
                mk_range(self.spec_from(), self.spec_to())
            } else {
                mk_range(self.spec_to(), self.spec_from())
            }),
    {
        let head = match self.direction {
            Some(Direction::Forward) => self.to,
            Some(Direction::Backward) | None => self.from,
        };
        if movement == Movement::Extend {
            Extension.apply(range, head)
        } else {
            match self.direction {
                Some(Direction::Forward) => Range::new(self.from, self.to),
                Some(Direction::Backward) | None => Range::new(self.to, self.from),
            }
        }
    }
}

/// Moves the head `count` graphemes in `dir` and selects the text it crossed
/// (or extends the selection in Select mode). A zero count leaves the range as it is.
pub fn move_horizontally(
    slice: RopeSlice,
    range: Range,
    dir: Direction,
    count: usize,
    behaviour: Movement,
) -> (r: Range)
    requires
        count == 0 || range.head <= rope_text(slice).len(),
    ensures
        count == 0 ==> r == range,
        count > 0 ==> r == spec_destination(
            DestinationMotion::LinearSelecting,
            range,
            (match dir {
                Direction::Forward => nth_next_edge(rope_text(slice), range.head as int, count as nat),
                Direction::Backward => nth_prev_edge(rope_text(slice), range.head as int, count as nat),
            }) as usize,
            behaviour,
        ),
{
    if count == 0 {
        return range;
    }
    let pos = range.cursor(slice);
    let new_pos = match dir {
        Direction::Forward => nth_next_grapheme_boundary(slice, pos, count),
        Direction::Backward => nth_prev_grapheme_boundary(slice, pos, count),
    };
    DestinationMotion::LinearSelecting.apply(range, new_pos, behaviour)
}

/// The range a parent-node motion produces: the cursor travels to the node edge
/// `destination`.
pub fn parent_node_end_range(range: Range, destination: usize, movement: Movement) -> (r: Range)
    ensures
        r == spec_destination(DestinationMotion::LinearSelecting, range, destination, movement),
{
    DestinationMotion::LinearSelecting.apply(range, destination, movement)
}

/// A syntax-object byte span is usable when it is ordered and ends at or before EOF.
pub fn treesitter_object_range_is_valid(text_len: usize, start_byte: usize, end_byte: usize) -> (r:
    bool)
    ensures
        r == (start_byte <= end_byte && end_byte <= text_len),
{
    start_byte <= end_byte && end_byte <= text_len
}


/// A syntax-object span that a motion from byte `byte_pos` may go to: one
/// starting after it going forward, one ending at or before it going backward.
pub open spec fn object_span_eligible(s: (usize, usize), byte_pos: usize, dir: Direction) -> bool {
    match dir {
        Direction::Forward => s.0 > byte_pos,
        Direction::Backward => s.1 <= byte_pos,
    }
}

/// Span `a` is nearer than span `b` in the direction of the motion: going
/// forward, it starts earlier (or is wider from the same start); going
/// backward, it ends later (or is wider to the same end).
pub open spec fn object_span_nearer(a: (usize, usize), b: (usize, usize), dir: Direction) -> bool {
    match dir {
        Direction::Forward => a.0 < b.0 || (a.0 == b.0 && a.1 > b.1),
        Direction::Backward => a.1 > b.1 || (a.1 == b.1 && a.0 < b.0),
    }
}

/// The nearest span of `spans` that a motion from byte `byte_pos` may go to in
/// direction `dir`, the first of equally near ones.
pub open spec fn nearest_object_span(spans: Seq<(usize, usize)>, byte_pos: usize, dir: Direction) -> Option<
    (usize, usize),
>
    decreases spans.len(),
{
    if spans.len() == 0 {
        None
    } else {
        let best = nearest_object_span(spans.drop_last(), byte_pos, dir);
        let s = spans.last();
        if object_span_eligible(s, byte_pos, dir) && (best is None || object_span_nearer(
            s,
            best->0,
            dir,
        )) {
            Some(s)
        } else {
            best
        }
    }
}

/// What a syntax-object motion from byte `byte_pos` goes to. Going forward: a
/// span starting after that byte, and no span starting after it starts
/// earlier, or starts at the same byte and ends later (of an object and its
/// first part, the object). Going backward: a span ending at or before that
/// byte, and no span ending there ends later, or ends at the same byte and
/// starts earlier (of an object and its last part, the object). None exactly
/// when no span lies that way.
pub proof fn lemma_nearest_object_span(spans: Seq<(usize, usize)>, byte_pos: usize, dir: Direction)
    ensures
        nearest_object_span(spans, byte_pos, dir) is None <==> (match dir {
            Direction::Forward => forall|i: int| 0 <= i < spans.len() ==> (#[trigger] spans[i]).0 <= byte_pos,
            Direction::Backward => forall|i: int| 0 <= i < spans.len() ==> (#[trigger] spans[i]).1 > byte_pos,
        }),
        nearest_object_span(spans, byte_pos, dir) matches Some(p) ==> spans.contains(p) && (match dir {
            Direction::Forward => p.0 > byte_pos && forall|i: int|
                0 <= i < spans.len() && (#[trigger] spans[i]).0 > byte_pos ==> p.0 < spans[i].0 || (p.0
                    == spans[i].0 && spans[i].1 <= p.1),
            Direction::Backward => p.1 <= byte_pos && forall|i: int|
                0 <= i < spans.len() && (#[trigger] spans[i]).1 <= byte_pos ==> spans[i].1 < p.1 || (
                spans[i].1 == p.1 && p.0 <= spans[i].0),
        }),
    decreases spans.len(),
{
    if spans.len() > 0 {
        let rest = spans.drop_last();
        lemma_nearest_object_span(rest, byte_pos, dir);
        assert forall|i: int| 0 <= i < rest.len() implies #[trigger] spans[i] == rest[i] by {}
        assert(spans[spans.len() - 1] == spans.last());
        let best = nearest_object_span(rest, byte_pos, dir);
        if let Some(b) = best {
            let j = choose|j: int| 0 <= j < rest.len() && rest[j] == b;
            assert(spans[j] == b);
        }
    }
}

/// The nearest span of `spans` that a motion from byte `byte_pos` may go to,
/// in direction `dir`: none when no span lies that way, else a span that lies
/// that way and that no other span is nearer than.
pub fn pick_object_span(spans: &[(usize, usize)], byte_pos: usize, dir: Direction) -> (r: Option<
    (usize, usize),
>)
    ensures
        r == nearest_object_span(spans@, byte_pos, dir),
        r is None <==> forall|i: int|
            0 <= i < spans@.len() ==> !object_span_eligible(#[trigger] spans@[i], byte_pos, dir),
        r matches Some(p) ==> {
            &&& spans@.contains(p)
            &&& object_span_eligible(p, byte_pos, dir)
            &&& forall|i: int|
                0 <= i < spans@.len() && object_span_eligible(#[trigger] spans@[i], byte_pos, dir)
                    ==> !object_span_nearer(spans@[i], p, dir)
        },
{
    let mut best: Option<(usize, usize)> = None;
    let mut k: usize = 0;
    while k < spans.len()
        invariant
            k <= spans@.len(),
            best == nearest_object_span(spans@.take(k as int), byte_pos, dir),
            best is None <==> forall|i: int|
                0 <= i < k ==> !object_span_eligible(#[trigger] spans@[i], byte_pos, dir),
            best matches Some(p) ==> {
                &&& spans@.contains(p)
                &&& object_span_eligible(p, byte_pos, dir)
                &&& forall|i: int|
                    0 <= i < k && object_span_eligible(#[trigger] spans@[i], byte_pos, dir)
                        ==> !object_span_nearer(spans@[i], p, dir)
            },
        decreases spans@.len() - k,
    {
        let s = spans[k];
        assert(spans@.take(k + 1).drop_last() == spans@.take(k as int));
        assert(spans@.take(k + 1).last() == s);
        let eligible = match dir {
            Direction::Forward => s.0 > byte_pos,
            Direction::Backward => s.1 <= byte_pos,
        };
        if eligible {
            let nearer = match best {
                None => true,
                Some(b) => match dir {
                    Direction::Forward => s.0 < b.0 || (s.0 == b.0 && s.1 > b.1),
                    Direction::Backward => s.1 > b.1 || (s.1 == b.1 && s.0 < b.0),
                },
            };
            if nearer {
                best = Some(s);
                assert(spans@[k as int] == s);
            }
        }
        k = k + 1;
    }
    assert(spans@.take(k as int) == spans@);
    best
}

/// The char whose encoding holds byte `b` of `t`, or EOF for the byte length.
pub open spec fn char_of_byte(t: Seq<char>, b: int) -> int {
    choose|c: int| is_char_of_byte(t, b, c)
}

/// One step of a syntax-object motion from `range` over `t`, given the byte
/// spans of the objects captured in the syntax layer at the cursor.
pub open spec fn spec_treesitter_object_step(
    t: Seq<char>,
    range: Range,
    spans: Seq<(usize, usize)>,
    dir: Direction,
) -> Option<Range> {
    if range.head > t.len() {
        None
    } else {
        let byte_pos = utf8_len(t.take(range.head as int)) as usize;
        match nearest_object_span(spans, byte_pos, dir) {
            None => None,
            Some(p) => if p.0 <= p.1 <= utf8_len(t) {
                Some(mk_range(char_of_byte(t, p.0 as int) as usize, char_of_byte(t, p.1 as int) as usize))
            } else {
                None
            },
        }
    }
}

/// One step of a syntax-object motion from `range`, given the byte spans of the
/// objects captured in the syntax layer at the cursor: the range from the char
/// holding the start of the nearest span to the char holding its end, or none
/// when the cursor is past the end, no span lies in the direction of the
/// motion, or the nearest one is not a span of the text.
pub fn treesitter_object_step(
    slice: RopeSlice,
    range: Range,
    spans: &[(usize, usize)],
    dir: Direction,
) -> (r: Option<Range>)
    ensures
        r == spec_treesitter_object_step(rope_text(slice), range, spans@, dir),
        r matches Some(o) ==> o.anchor <= o.head,
{
    let ghost t = rope_text(slice);
    let cursor = range.cursor(slice);
    let byte_pos = match byte_range_at_edge(slice, cursor) {
        Ok(b) => b.start,
        Err(_) => {
            return None;
        },
    };
    let node = match pick_object_span(spans, byte_pos, dir) {
        Some(p) => p,
        None => {
            return None;
        },
    };
    let len = rope_len_bytes(slice);
    if !treesitter_object_range_is_valid(len, node.0, node.1) {
        return None;
    }
    let start_char = rope_byte_to_char(slice, node.0);
    let end_char = rope_byte_to_char(slice, node.1);
    proof {
        crate::selection::lemma_char_of_byte_monotone(
            t,
            node.0 as int,
            start_char as int,
            node.1 as int,
            end_char as int,
        );
        let c0 = char_of_byte(t, node.0 as int);
        let c1 = char_of_byte(t, node.1 as int);
        crate::selection::lemma_char_of_byte_monotone(t, node.0 as int, start_char as int, node.0 as int, c0);
        crate::selection::lemma_char_of_byte_monotone(t, node.0 as int, c0, node.0 as int, start_char as int);
        crate::selection::lemma_char_of_byte_monotone(t, node.1 as int, end_char as int, node.1 as int, c1);
        crate::selection::lemma_char_of_byte_monotone(t, node.1 as int, c1, node.1 as int, end_char as int);
    }
    Some(Range::new(start_char, end_char))
}

/// A run of syntax-object motion steps from `range`, asked for at most `count`
/// steps: `rs` holds the ranges reached, starting with `range`, and `vs` the
/// span lists that `spans_at` gave for each range it was asked about. Every
/// step moved to a new range; when fewer than `count` steps were taken, the
/// step after the last range found no object or did not move.
pub open spec fn object_walk<F: Fn(Range) -> Vec<(usize, usize)>>(
    t: Seq<char>,
    dir: Direction,
    spans_at: F,
    range: Range,
    count: nat,
    rs: Seq<Range>,
    vs: Seq<Vec<(usize, usize)>>,
) -> bool {
    &&& 1 <= rs.len() <= count + 1
    &&& rs[0] == range
    &&& vs.len() == if rs.len() <= count {
        rs.len() as int
    } else {
        rs.len() - 1
    }
    &&& forall|i: int|
        0 <= i < rs.len() - 1 ==> {
            &&& spans_at.ensures((rs[i],), #[trigger] vs[i])
            &&& spec_treesitter_object_step(t, rs[i], vs[i]@, dir) == Some(rs[i + 1])
            &&& rs[i + 1] != rs[i]
        }
    &&& rs.len() <= count ==> {
        &&& spans_at.ensures((rs.last(),), vs[rs.len() - 1])
        &&& match spec_treesitter_object_step(t, rs.last(), vs[rs.len() - 1]@, dir) {
            None => true,
            Some(n) => n == rs.last(),
        }
    }
}

/// A syntax-object motion repeated `count` times from `range`. `spans_at` gives
/// the byte spans of the objects captured in the syntax layer at the cursor of
/// a range; the motion stops early when a step finds no object or does not
/// move. A zero count leaves the range as it is.
pub fn goto_treesitter_object<F: Fn(Range) -> Vec<(usize, usize)>>(
    slice: RopeSlice,
    range: Range,
    dir: Direction,
    count: usize,
    spans_at: F,
) -> (r: Range)
    requires
        forall|x: Range| spans_at.requires((x,)),
    ensures
        count == 0 ==> r == range,
        exists|rs: Seq<Range>, vs: Seq<Vec<(usize, usize)>>|
            #[trigger] object_walk(rope_text(slice), dir, spans_at, range, count as nat, rs, vs)
                && rs.last() == r,
{
    let ghost t = rope_text(slice);
    let mut last = range;
    let ghost mut rs: Seq<Range> = seq![range];
    let ghost mut vs: Seq<Vec<(usize, usize)>> = Seq::empty();
    let mut k: usize = 0;
    while k < count
        invariant_except_break
            rs.len() == k + 1,
            vs.len() == k,
        invariant
            t == rope_text(slice),
            forall|x: Range| spans_at.requires((x,)),
            k <= count,
            rs[0] == range,
            rs.last() == last,
            1 <= rs.len() <= k + 1,
            forall|i: int|
                0 <= i < rs.len() - 1 ==> {
                    &&& spans_at.ensures((rs[i],), #[trigger] vs[i])
                    &&& spec_treesitter_object_step(t, rs[i], vs[i]@, dir) == Some(rs[i + 1])
                    &&& rs[i + 1] != rs[i]
                },
        ensures
            object_walk(t, dir, spans_at, range, count as nat, rs, vs),
            rs.last() == last,
        decreases count - k,
    {
        let spans = spans_at(last);
        let step = treesitter_object_step(slice, last, spans.as_slice(), dir);
        let ghost old_rs = rs;
        let ghost old_vs = vs;
        proof {
            vs = vs.push(spans);
        }
        match step {
            Some(next) => {
                if next == last {
                    assert(rs.len() <= count);
                    assert(vs[rs.len() - 1] == spans);
                    break;
                }
                proof {
                    rs = rs.push(next);
                    assert forall|i: int| 0 <= i < rs.len() - 1 implies {
                        &&& spans_at.ensures((rs[i],), #[trigger] vs[i])
                        &&& spec_treesitter_object_step(t, rs[i], vs[i]@, dir) == Some(rs[i + 1])
                        &&& rs[i + 1] != rs[i]
                    } by {
                        if i < old_rs.len() - 1 {
                            assert(rs[i] == old_rs[i] && rs[i + 1] == old_rs[i + 1] && vs[i] == old_vs[i]);
                        } else {
                            assert(rs[i] == last && rs[i + 1] == next && vs[i] == spans);
                        }
                    }
                }
                last = next;
            },
            None => {
                assert(vs[rs.len() - 1] == spans);
                break;
            },
        }
        k = k + 1;
    }
    last
}

/// Possible targets of a word motion
#[derive(Copy, Clone, Debug, PartialEq, Eq, Structural)]
pub enum WordMotionTarget {
    NextWordStart,
    NextWordEnd,
    PrevWordStart,
    PrevWordEnd,
    // A "Long word" (also known as a WORD in Vim/Kakoune) is strictly
    // delimited by whitespace, and can consist of punctuation as well
    // as alphanumerics.
    NextLongWordStart,
    NextLongWordEnd,
    PrevLongWordStart,
    PrevLongWordEnd,
    // A sub word is similar to a regular word, except it is also delimited by
    // underscores and transitions from lowercase to uppercase.
    NextSubWordStart,
    NextSubWordEnd,
    PrevSubWordStart,
    PrevSubWordEnd,
}

/// The target is reached by moving backward.
pub open spec fn is_prev_target(target: WordMotionTarget) -> bool {
    match target {
        WordMotionTarget::PrevWordStart
        | WordMotionTarget::PrevLongWordStart
        | WordMotionTarget::PrevSubWordStart
        | WordMotionTarget::PrevWordEnd
        | WordMotionTarget::PrevLongWordEnd
        | WordMotionTarget::PrevSubWordEnd => true,
        _ => false,
    }
}

pub open spec fn spec_is_word_boundary(a: char, b: char) -> bool {
    spec_categorize(a) != spec_categorize(b)
}

pub open spec fn spec_is_long_word_boundary(a: char, b: char) -> bool {
    let (x, y) = (spec_categorize(a), spec_categorize(b));
    if (x == CharCategory::Word && y == CharCategory::Punctuation) || (x
        == CharCategory::Punctuation && y == CharCategory::Word) {
        false
    } else {
        x != y
    }
}

pub open spec fn spec_is_sub_word_boundary(a: char, b: char, dir: Direction) -> bool {
    let (x, y) = (spec_categorize(a), spec_categorize(b));
    if x == CharCategory::Word && y == CharCategory::Word {
        if (a == '_') != (b == '_') {
            true
        } else {
            match dir {
                Direction::Forward => lowercase(a) && uppercase(b),
                Direction::Backward => uppercase(a) && lowercase(b),
            }
        }
    } else {
        x != y
    }
}

/// Whether the motion stops between `prev_ch` and `next_ch` (in travel order).
pub open spec fn spec_reached_target(target: WordMotionTarget, prev_ch: char, next_ch: char) -> bool {
    match target {
        WordMotionTarget::NextWordStart | WordMotionTarget::PrevWordEnd => spec_is_word_boundary(
            prev_ch,
            next_ch,
        ) && (is_line_ending(next_ch) || !white_space(next_ch)),
        WordMotionTarget::NextWordEnd | WordMotionTarget::PrevWordStart => spec_is_word_boundary(
            prev_ch,
            next_ch,
        ) && (!white_space(prev_ch) || is_line_ending(next_ch)),
        WordMotionTarget::NextLongWordStart | WordMotionTarget::PrevLongWordEnd =>
            spec_is_long_word_boundary(prev_ch, next_ch) && (is_line_ending(next_ch) || !white_space(
            next_ch)),
        WordMotionTarget::NextLongWordEnd | WordMotionTarget::PrevLongWordStart =>
            spec_is_long_word_boundary(prev_ch, next_ch) && (!white_space(prev_ch) || is_line_ending(
            next_ch)),
        WordMotionTarget::NextSubWordStart => spec_is_sub_word_boundary(
            prev_ch,
            next_ch,
            Direction::Forward,
        ) && (is_line_ending(next_ch) || !(white_space(next_ch) || next_ch == '_')),
        WordMotionTarget::PrevSubWordEnd => spec_is_sub_word_boundary(
            prev_ch,
            next_ch,
            Direction::Backward,
        ) && (is_line_ending(next_ch) || !(white_space(next_ch) || next_ch == '_')),
        WordMotionTarget::NextSubWordEnd => spec_is_sub_word_boundary(
            prev_ch,
            next_ch,
            Direction::Forward,
        ) && (!(white_space(prev_ch) || prev_ch == '_') || is_line_ending(next_ch)),
        WordMotionTarget::PrevSubWordStart => spec_is_sub_word_boundary(
            prev_ch,
            next_ch,
            Direction::Backward,
        ) && (!(white_space(prev_ch) || prev_ch == '_') || is_line_ending(next_ch)),
    }
}

/// The first edge at or after `p` that is not followed by a line ending.
pub open spec fn skip_forward(t: Seq<char>, p: int) -> int
    decreases t.len() - p,
{
    if 0 <= p < t.len() && is_line_ending(t[p]) {
        skip_forward(t, p + 1)
    } else {
        p
    }
}

/// The last edge at or before `p` that is not preceded by a line ending.
pub open spec fn skip_backward(t: Seq<char>, p: int) -> int
    decreases p,
{
    if 0 < p <= t.len() && is_line_ending(t[p - 1]) {
        skip_backward(t, p - 1)
    } else {
        p
    }
}

/// Moving forward, the motion stops at edge `p` (before `t[p]`).
pub open spec fn forward_stop(t: Seq<char>, target: WordMotionTarget, p: int) -> bool {
    p == 0 || spec_reached_target(target, t[p - 1], t[p])
}

/// Moving backward, the motion stops at edge `p` (after `t[p - 1]`).
pub open spec fn backward_stop(t: Seq<char>, target: WordMotionTarget, p: int) -> bool {
    p == t.len() || spec_reached_target(target, t[p], t[p - 1])
}

/// The first forward stop at or after `p`, or EOF.
pub open spec fn forward_scan(t: Seq<char>, target: WordMotionTarget, p: int) -> int
    decreases t.len() - p,
{
    if p >= t.len() {
        t.len() as int
    } else if forward_stop(t, target, p) {
        p
    } else {
        forward_scan(t, target, p + 1)
    }
}

/// The last backward stop at or before `p`, or the start of the text.
pub open spec fn backward_scan(t: Seq<char>, target: WordMotionTarget, p: int) -> int
    decreases p,
{
    if p <= 0 {
        0
    } else if backward_stop(t, target, p) {
        p
    } else {
        backward_scan(t, target, p - 1)
    }
}

/// One word motion from `origin`: line endings right at the head are skipped
/// (and then the anchor moves to the edge after them); the anchor moves to the
/// head when the head already stands on a stop; the head moves to the next stop.
pub open spec fn spec_range_to_target(t: Seq<char>, target: WordMotionTarget, origin: Range) -> Range {
    let len = t.len() as int;
    if !is_prev_target(target) {
        let h1 = skip_forward(t, origin.head as int);
        let anchor = if h1 < len && forward_stop(t, target, h1) {
            h1
        } else if h1 > 0 && is_line_ending(t[h1 - 1]) {
            h1
        } else {
            origin.anchor as int
        };
        let head = if h1 < len {
            forward_scan(t, target, h1 + 1)
        } else {
            h1
        };
        mk_range(anchor as usize, head as usize)
    } else {
        let h1 = skip_backward(t, origin.head as int);
        let anchor = if h1 > 0 && backward_stop(t, target, h1) {
            h1
        } else if h1 < len && is_line_ending(t[h1]) {
            h1
        } else {
            origin.anchor as int
        };
        let head = if h1 > 0 {
            backward_scan(t, target, h1 - 1)
        } else {
            0
        };
        mk_range(anchor as usize, head as usize)
    }
}

proof fn lemma_skip_forward(t: Seq<char>, p: int)
    requires
        0 <= p <= t.len(),
    ensures
        p <= skip_forward(t, p) <= t.len(),
    decreases t.len() - p,
{
    if p < t.len() && is_line_ending(t[p]) {
        lemma_skip_forward(t, p + 1);
    }
}

proof fn lemma_skip_backward(t: Seq<char>, p: int)
    requires
        0 <= p <= t.len(),
    ensures
        0 <= skip_backward(t, p) <= p,
    decreases p,
{
    if p > 0 && is_line_ending(t[p - 1]) {
        lemma_skip_backward(t, p - 1);
    }
}

proof fn lemma_forward_scan(t: Seq<char>, target: WordMotionTarget, p: int)
    requires
        0 <= p <= t.len(),
    ensures
        p <= forward_scan(t, target, p) <= t.len(),
    decreases t.len() - p,
{
    if p < t.len() && !forward_stop(t, target, p) {
        lemma_forward_scan(t, target, p + 1);
    }
}

proof fn lemma_backward_scan(t: Seq<char>, target: WordMotionTarget, p: int)
    requires
        0 <= p <= t.len(),
    ensures
        0 <= backward_scan(t, target, p) <= p,
    decreases p,
{
    if p > 0 && !backward_stop(t, target, p) {
        lemma_backward_scan(t, target, p - 1);
    }
}

fn is_word_boundary(a: char, b: char) -> (r: bool)
    ensures
        r == spec_is_word_boundary(a, b),
{
    categorize_char(a) != categorize_char(b)
}

fn is_long_word_boundary(a: char, b: char) -> (r: bool)
    ensures
        r == spec_is_long_word_boundary(a, b),
{
    let (x, y) = (categorize_char(a), categorize_char(b));
    if (x == CharCategory::Word && y == CharCategory::Punctuation) || (x
        == CharCategory::Punctuation && y == CharCategory::Word) {
        false
    } else {
        x != y
    }
}

fn is_sub_word_boundary(a: char, b: char, dir: Direction) -> (r: bool)
    ensures
        r == spec_is_sub_word_boundary(a, b, dir),
{
    let (x, y) = (categorize_char(a), categorize_char(b));
    if x == CharCategory::Word && y == CharCategory::Word {
        if (a == '_') != (b == '_') {
            return true;
        }
        match dir {
            Direction::Forward => char_is_lowercase(a) && char_is_uppercase(b),
            Direction::Backward => char_is_uppercase(a) && char_is_lowercase(b),
        }
    } else {
        x != y
    }
}

fn reached_target(target: WordMotionTarget, prev_ch: char, next_ch: char) -> (r: bool)
    ensures
        r == spec_reached_target(target, prev_ch, next_ch),
{
    match target {
        WordMotionTarget::NextWordStart | WordMotionTarget::PrevWordEnd => {
            is_word_boundary(prev_ch, next_ch) && (char_is_line_ending(next_ch)
                || !char_is_whitespace(next_ch))
        },
        WordMotionTarget::NextWordEnd | WordMotionTarget::PrevWordStart => {
            is_word_boundary(prev_ch, next_ch) && (!char_is_whitespace(prev_ch)
                || char_is_line_ending(next_ch))
        },
        WordMotionTarget::NextLongWordStart | WordMotionTarget::PrevLongWordEnd => {
            is_long_word_boundary(prev_ch, next_ch) && (char_is_line_ending(next_ch)
                || !char_is_whitespace(next_ch))
        },
        WordMotionTarget::NextLongWordEnd | WordMotionTarget::PrevLongWordStart => {
            is_long_word_boundary(prev_ch, next_ch) && (!char_is_whitespace(prev_ch)
                || char_is_line_ending(next_ch))
        },
        WordMotionTarget::NextSubWordStart => {
            is_sub_word_boundary(prev_ch, next_ch, Direction::Forward) && (char_is_line_ending(
                next_ch,
            ) || !(char_is_whitespace(next_ch) || next_ch == '_'))
        },
        WordMotionTarget::PrevSubWordEnd => {
            is_sub_word_boundary(prev_ch, next_ch, Direction::Backward) && (char_is_line_ending(
                next_ch,
            ) || !(char_is_whitespace(next_ch) || next_ch == '_'))
        },
        WordMotionTarget::NextSubWordEnd => {
            is_sub_word_boundary(prev_ch, next_ch, Direction::Forward) && (!(char_is_whitespace(
                prev_ch,
            ) || prev_ch == '_') || char_is_line_ending(next_ch))
        },
        WordMotionTarget::PrevSubWordStart => {
            is_sub_word_boundary(prev_ch, next_ch, Direction::Backward) && (!(char_is_whitespace(
                prev_ch,
            ) || prev_ch == '_') || char_is_line_ending(next_ch))
        },
    }
}

fn is_prev(target: WordMotionTarget) -> (r: bool)
    ensures
        r == is_prev_target(target),
{
    match target {
        WordMotionTarget::PrevWordStart
        | WordMotionTarget::PrevLongWordStart
        | WordMotionTarget::PrevSubWordStart
        | WordMotionTarget::PrevWordEnd
        | WordMotionTarget::PrevLongWordEnd
        | WordMotionTarget::PrevSubWordEnd => true,
        _ => false,
    }
}

/// The char at `i` of a text of length `len`.
pub(crate) fn char_at(slice: RopeSlice, i: usize) -> (r: char)
    requires
        i < rope_text(slice).len(),
    ensures
        r == rope_text(slice)[i as int],
{
    match rope_get_char(slice, i) {
        Some(c) => c,
        None => {
            proof {
                assert(false);
            }
            ' '
        },
    }
}

/// The first edge of line `l` of `slice` (`l` may be one past the last line).
fn line_to_char(slice: RopeSlice, l: usize) -> (r: usize)
    requires
        l <= line_count(rope_text(slice)),
    ensures
        r == line_start(rope_text(slice), l as int),
        r <= rope_text(slice).len(),
        l < line_count(rope_text(slice)) ==> is_line_start(rope_text(slice), l as int, r as int),
{
    let r = rope_line_to_char(slice, l);
    proof {
        if l < line_count(rope_text(slice)) {
            lemma_line_start(rope_text(slice), l as int, r as int);
        }
    }
    r
}

/// Line `l` holds nothing but a line ending, or nothing at all.
pub open spec fn is_empty_line(t: Seq<char>, l: int) -> bool {
    let s = line_start(t, l);
    let e = line_start(t, l + 1);
    ||| e == s
    ||| e == s + 1 && t[s] == '\n'
    ||| e == s + 2 && t[s] == '\r' && t[s + 1] == '\n'
}

/// Paragraph motions take a line as empty exactly when its text, line ending
/// included, is nothing at all or a single line ending: a line feed alone, or
/// a carriage return and a line feed.
pub proof fn lemma_empty_line_is_a_bare_line_ending(t: Seq<char>, l: int)
    requires
        0 <= l < line_count(t),
    ensures
        ({
            let line = t.subrange(line_start(t, l), line_start(t, l + 1));
            is_empty_line(t, l) <==> (line.len() == 0 || line == seq!['\n'] || line == seq![
                '\r',
                '\n',
            ])
        }),
{
    let s = line_start(t, l);
    let e = line_start(t, l + 1);
    lemma_line_start_exists(t, l);
    if l + 1 < line_count(t) {
        lemma_line_start_exists(t, l + 1);
        lemma_line_starts_ordered(t, l, s, e);
    }
    assert(0 <= s <= e <= t.len());
    let line = t.subrange(s, e);
    assert(line.len() == e - s);
    if line == seq!['\n'] {
        assert(seq!['\n'][0] == '\n');
        assert(line[0] == t[s]);
    }
    if line == seq!['\r', '\n'] {
        assert(seq!['\r', '\n'][0] == '\r' && seq!['\r', '\n'][1] == '\n');
        assert(line[0] == t[s] && line[1] == t[s + 1]);
    }
    if is_empty_line(t, l) {
        if e == s + 1 {
            assert(line =~= seq!['\n']);
        } else if e == s + 2 {
            assert(line =~= seq!['\r', '\n']);
        }
    }
}

fn line_is_empty(slice: RopeSlice, len_lines: usize, l: usize) -> (r: bool)
    requires
        len_lines == line_count(rope_text(slice)),
        l < len_lines,
    ensures
        r == is_empty_line(rope_text(slice), l as int),
{
    let ghost t = rope_text(slice);
    let s = line_to_char(slice, l);
    let e = line_to_char(slice, l + 1);
    proof {
        if l + 1 < len_lines {
            lemma_line_starts_ordered(t, l as int, s as int, e as int);
        }
    }
    let n = e - s;
    if n == 0 {
        true
    } else if n == 1 {
        char_at(slice, s) == '\n'
    } else if n == 2 {
        char_at(slice, s) == '\r' && char_at(slice, s + 1) == '\n'
    } else {
        false
    }
}

/// From line `l`, moves back over the preceding lines whose emptiness is `empty`.
pub open spec fn back_over(t: Seq<char>, l: int, empty: bool) -> int
    decreases l,
{
    if l > 0 && is_empty_line(t, l - 1) == empty {
        back_over(t, l - 1, empty)
    } else {
        l
    }
}

/// From line `l`, moves forward over the lines whose emptiness is `empty`.
pub open spec fn forward_over(t: Seq<char>, l: int, empty: bool) -> int
    decreases line_count(t) - l,
{
    if 0 <= l < line_count(t) && is_empty_line(t, l) == empty {
        forward_over(t, l + 1, empty)
    } else {
        l
    }
}

/// The line reached from line `l` by `n` backward paragraph steps: each step
/// passes the empty lines and then the text lines above.
pub open spec fn prev_paragraph_line(t: Seq<char>, l: int, n: nat) -> int
    decreases n,
{
    if n == 0 {
        l
    } else {
        prev_paragraph_line(t, back_over(t, back_over(t, l, true), false), (n - 1) as nat)
    }
}

/// The line reached from line `l` by `n` forward paragraph steps: each step
/// passes the text lines and then the empty lines below.
pub open spec fn next_paragraph_line(t: Seq<char>, l: int, n: nat) -> int
    decreases n,
{
    if n == 0 {
        l
    } else {
        next_paragraph_line(t, forward_over(t, forward_over(t, l, false), true), (n - 1) as nat)
    }
}

/// The line a backward paragraph motion from `head` starts counting from: the
/// line after the cursor's when the cursor is inside the first line of a
/// paragraph, so that the motion goes to that paragraph's start.
pub open spec fn prev_paragraph_first_line(t: Seq<char>, head: int) -> int {
    let line = line_of(t, head) as int;
    let first_char = line_start(t, line) == head;
    let prev_line_empty = is_empty_line(t, if line > 0 { line - 1 } else { 0 });
    let curr_line_empty = is_empty_line(t, line);
    if prev_line_empty && !curr_line_empty && !first_char {
        line + 1
    } else {
        line
    }
}

/// The line a forward paragraph motion from `head` starts counting from: the
/// line after the cursor's when the cursor is on the last grapheme of an empty
/// line just above a paragraph.
pub open spec fn next_paragraph_first_line(t: Seq<char>, head: int) -> int {
    let line = line_of(t, head) as int;
    let last_char = prev_edge(t, line_start(t, line + 1)) == head;
    let curr_line_empty = is_empty_line(t, line);
    let next = if line + 1 < line_count(t) { line + 1 } else { line_count(t) - 1 };
    let next_line_empty = is_empty_line(t, next);
    if curr_line_empty && !next_line_empty && last_char {
        line + 1
    } else {
        line
    }
}

pub open spec fn spec_move_prev_paragraph(t: Seq<char>, range: Range, count: nat, behavior: Movement) -> Range {
    if count == 0 {
        range
    } else {
        let line = prev_paragraph_line(t, prev_paragraph_first_line(t, range.head as int), count);
        spec_destination(DestinationMotion::LinearSelecting, range, line_start(t, line) as usize, behavior)
    }
}

pub open spec fn spec_move_next_paragraph(t: Seq<char>, range: Range, count: nat, behavior: Movement) -> Range {
    if count == 0 {
        range
    } else {
        let line = next_paragraph_line(t, next_paragraph_first_line(t, range.head as int), count);
        spec_destination(DestinationMotion::LinearSelecting, range, line_start(t, line) as usize, behavior)
    }
}

proof fn lemma_prev_paragraph_fixed(t: Seq<char>, l: int, n: nat)
    requires
        back_over(t, back_over(t, l, true), false) == l,
    ensures
        prev_paragraph_line(t, l, n) == l,
    decreases n,
{
    if n > 0 {
        lemma_prev_paragraph_fixed(t, l, (n - 1) as nat);
    }
}

proof fn lemma_next_paragraph_fixed(t: Seq<char>, l: int, n: nat)
    requires
        forward_over(t, forward_over(t, l, false), true) == l,
    ensures
        next_paragraph_line(t, l, n) == l,
    decreases n,
{
    if n > 0 {
        lemma_next_paragraph_fixed(t, l, (n - 1) as nat);
    }
}

fn back_over_lines(slice: RopeSlice, len_lines: usize, line: usize, empty: bool) -> (r: usize)
    requires
        len_lines == line_count(rope_text(slice)),
        line <= len_lines,
    ensures
        r == back_over(rope_text(slice), line as int, empty),
        r <= line,
{
    let ghost t = rope_text(slice);
    let mut l = line;
    loop
        invariant
            l <= line <= len_lines,
            len_lines == line_count(t),
            t == rope_text(slice),
            back_over(t, l as int, empty) == back_over(t, line as int, empty),
        ensures
            l == back_over(t, line as int, empty),
        decreases l,
    {
        if l == 0 {
            break;
        }
        if line_is_empty(slice, len_lines, l - 1) != empty {
            break;
        }
        l = l - 1;
    }
    l
}

fn forward_over_lines(slice: RopeSlice, len_lines: usize, line: usize, empty: bool) -> (r: usize)
    requires
        len_lines == line_count(rope_text(slice)),
        line <= len_lines,
    ensures
        r == forward_over(rope_text(slice), line as int, empty),
        line <= r <= len_lines,
{
    let ghost t = rope_text(slice);
    let mut l = line;
    loop
        invariant
            line <= l <= len_lines,
            len_lines == line_count(t),
            t == rope_text(slice),
            forward_over(t, l as int, empty) == forward_over(t, line as int, empty),
        ensures
            l == forward_over(t, line as int, empty),
        decreases len_lines - l,
    {
        if l == len_lines {
            break;
        }
        if line_is_empty(slice, len_lines, l) != empty {
            break;
        }
        l = l + 1;
    }
    l
}

/// Moves to the start of the paragraph above the cursor, `count` times.
pub fn move_prev_paragraph(slice: RopeSlice, range: Range, count: usize, behavior: Movement) -> (r: Range)
    requires
        count == 0 || range.head <= rope_text(slice).len(),
    ensures
        r == spec_move_prev_paragraph(rope_text(slice), range, count as nat, behavior),
{
    if count == 0 {
        return range;
    }
    let ghost t = rope_text(slice);
    let len_lines = rope_len_lines(slice);
    let cursor_pos = range.cursor(slice);
    let mut line = range.cursor_line(slice);
    proof {
        lemma_line_of_bound(t, range.head as int);
    }
    let first_char = line_to_char(slice, line) == cursor_pos;
    let prev = if line > 0 { line - 1 } else { 0 };
    let prev_line_empty = line_is_empty(slice, len_lines, prev);
    let curr_line_empty = line_is_empty(slice, len_lines, line);
    let prev_empty_to_line = prev_line_empty && !curr_line_empty;
    if prev_empty_to_line && !first_char {
        line = line + 1;
    }
    let ghost start = line;
    let mut last_line = line;
    let mut i: usize = 0;
    while i < count
        invariant
            t == rope_text(slice),
            len_lines == line_count(t),
            i <= count,
            line <= len_lines,
            last_line == line,
            prev_paragraph_line(t, line as int, (count - i) as nat) == prev_paragraph_line(
                t,
                start as int,
                count as nat,
            ),
        ensures
            line as int == prev_paragraph_line(t, start as int, count as nat),
            line <= len_lines,
        decreases count - i,
    {
        line = back_over_lines(slice, len_lines, line, true);
        line = back_over_lines(slice, len_lines, line, false);
        if line == last_line {
            proof {
                lemma_prev_paragraph_fixed(t, line as int, (count - i - 1) as nat);
            }
            break;
        }
        last_line = line;
        i = i + 1;
    }
    let head = line_to_char(slice, line);
    DestinationMotion::LinearSelecting.apply(range, head, behavior)
}

/// Moves past the end of the paragraph below the cursor, `count` times.
pub fn move_next_paragraph(slice: RopeSlice, range: Range, count: usize, behavior: Movement) -> (r: Range)
    requires
        count == 0 || range.head <= rope_text(slice).len(),
    ensures
        r == spec_move_next_paragraph(rope_text(slice), range, count as nat, behavior),
{
    if count == 0 {
        return range;
    }
    let ghost t = rope_text(slice);
    let len_lines = rope_len_lines(slice);
    let cursor_pos = range.cursor(slice);
    let mut line = range.cursor_line(slice);
    proof {
        lemma_line_of_bound(t, range.head as int);
    }
    let last_char = prev_grapheme_boundary(slice, line_to_char(slice, line + 1)) == cursor_pos;
    let curr_line_empty = line_is_empty(slice, len_lines, line);
    let next = if line + 1 < len_lines { line + 1 } else { len_lines - 1 };
    let next_line_empty = line_is_empty(slice, len_lines, next);
    let curr_empty_to_line = curr_line_empty && !next_line_empty;
    if curr_empty_to_line && last_char {
        line = line + 1;
    }
    let ghost start = line;
    let mut last_line = line;
    let mut i: usize = 0;
    while i < count
        invariant
            t == rope_text(slice),
            len_lines == line_count(t),
            i <= count,
            line <= len_lines,
            last_line == line,
            next_paragraph_line(t, line as int, (count - i) as nat) == next_paragraph_line(
                t,
                start as int,
                count as nat,
            ),
        ensures
            line as int == next_paragraph_line(t, start as int, count as nat),
            line <= len_lines,
        decreases count - i,
    {
        line = forward_over_lines(slice, len_lines, line, false);
        line = forward_over_lines(slice, len_lines, line, true);
        if line == last_line {
            proof {
                lemma_next_paragraph_fixed(t, line as int, (count - i - 1) as nat);
            }
            break;
        }
        last_line = line;
        i = i + 1;
    }
    let head = line_to_char(slice, line);
    DestinationMotion::LinearSelecting.apply(range, head, behavior)
}

/// The first index at or after `pos` whose char fails `fun`, or `None` when
/// every char from `pos` to the end satisfies it.
pub fn skip_while<F>(slice: RopeSlice, pos: usize, fun: F) -> (r: Option<usize>) where
    F: Fn(char) -> bool,

    requires
        pos <= rope_text(slice).len(),
        forall|c: char| fun.requires((c,)),
    ensures
        match r {
            Some(k) => {
                &&& pos <= k < rope_text(slice).len()
                &&& fun.ensures((rope_text(slice)[k as int],), false)
                &&& forall|j: int|
                    pos <= j < k ==> fun.ensures((#[trigger] rope_text(slice)[j],), true)
            },
            None => forall|j: int|
                pos <= j < rope_text(slice).len() ==> fun.ensures(
                    (#[trigger] rope_text(slice)[j],),
                    true,
                ),
        },
{
    let ghost t = rope_text(slice);
    let len = rope_len_chars(slice);
    let mut i = pos;
    while i < len
        invariant
            t == rope_text(slice),
            len == t.len(),
            pos <= i <= len,
            forall|c: char| fun.requires((c,)),
            forall|j: int| pos <= j < i ==> fun.ensures((#[trigger] t[j],), true),
        decreases len - i,
    {
        let c = char_at(slice, i);
        if !fun(c) {
            return Some(i);
        }
        i = i + 1;
    }
    None
}

/// Walking back from `pos`, the index of the first char that fails `fun`;
/// when every char before `pos` satisfies it, the walk saturates at `Some(0)`.
pub fn backwards_skip_while<F>(slice: RopeSlice, pos: usize, fun: F) -> (r: Option<usize>) where
    F: Fn(char) -> bool,

    requires
        pos <= rope_text(slice).len(),
        forall|c: char| fun.requires((c,)),
    ensures
        r is Some,
        match r {
            Some(k) => {
                ||| {
                    &&& k < pos
                    &&& fun.ensures((rope_text(slice)[k as int],), false)
                    &&& forall|j: int|
                        k < j < pos ==> fun.ensures((#[trigger] rope_text(slice)[j],), true)
                }
                ||| {
                    &&& k == 0
                    &&& forall|j: int|
                        0 <= j < pos ==> fun.ensures((#[trigger] rope_text(slice)[j],), true)
                }
            },
            None => false,
        },
{
    let ghost t = rope_text(slice);
    let mut k = pos;
    while k > 0
        invariant
            t == rope_text(slice),
            k <= pos <= t.len(),
            forall|c: char| fun.requires((c,)),
            forall|j: int| k <= j < pos ==> fun.ensures((#[trigger] t[j],), true),
        decreases k,
    {
        let c = char_at(slice, k - 1);
        if !fun(c) {
            return Some(k - 1);
        }
        k = k - 1;
    }
    Some(0)
}

/// Moving forward from edge `p` of `slice`, the motion stops here.
fn forward_stop_at(slice: RopeSlice, target: WordMotionTarget, p: usize) -> (r: bool)
    requires
        p < rope_text(slice).len(),
    ensures
        r == forward_stop(rope_text(slice), target, p as int),
{
    p == 0 || reached_target(target, char_at(slice, p - 1), char_at(slice, p))
}

/// Moving backward to edge `p` of `slice`, the motion stops here.
fn backward_stop_at(slice: RopeSlice, len: usize, target: WordMotionTarget, p: usize) -> (r: bool)
    requires
        0 < p <= rope_text(slice).len(),
        len == rope_text(slice).len(),
    ensures
        r == backward_stop(rope_text(slice), target, p as int),
{
    p == len || reached_target(target, char_at(slice, p), char_at(slice, p - 1))
}

/// One word motion over `slice` from `origin` (see `spec_range_to_target`).
pub fn range_to_target(slice: RopeSlice, target: WordMotionTarget, origin: Range) -> (r: Range)
    requires
        origin.head <= rope_text(slice).len(),
    ensures
        r == spec_range_to_target(rope_text(slice), target, origin),
{
    let ghost t = rope_text(slice);
    let len = rope_len_chars(slice);
    let mut anchor = origin.anchor;
    let mut head = origin.head;
    if !is_prev(target) {
        while head < len && char_is_line_ending(char_at(slice, head))
            invariant
                len == t.len(),
                t == rope_text(slice),
                origin.head <= head <= len,
                skip_forward(t, origin.head as int) == skip_forward(t, head as int),
            decreases len - head,
        {
            head = head + 1;
        }
        proof {
            lemma_skip_forward(t, origin.head as int);
        }
        if head > 0 && char_is_line_ending(char_at(slice, head - 1)) {
            anchor = head;
        }
        if head < len {
            if forward_stop_at(slice, target, head) {
                anchor = head;
            }
            let mut p = head + 1;
            while p < len && !forward_stop_at(slice, target, p)
                invariant
                    len == t.len(),
                    t == rope_text(slice),
                    head < p <= len,
                    forward_scan(t, target, head + 1) == forward_scan(t, target, p as int),
                decreases len - p,
            {
                p = p + 1;
            }
            head = p;
        }
    } else {
        while head > 0 && char_is_line_ending(char_at(slice, head - 1))
            invariant
                len == t.len(),
                t == rope_text(slice),
                head <= origin.head <= len,
                skip_backward(t, origin.head as int) == skip_backward(t, head as int),
            decreases head,
        {
            head = head - 1;
        }
        proof {
            lemma_skip_backward(t, origin.head as int);
        }
        if head < len && char_is_line_ending(char_at(slice, head)) {
            anchor = head;
        }
        if head > 0 {
            if backward_stop_at(slice, len, target, head) {
                anchor = head;
            }
            let mut p = head - 1;
            while p > 0 && !backward_stop_at(slice, len, target, p)
                invariant
                    len == t.len(),
                    t == rope_text(slice),
                    p < head <= len,
                    backward_scan(t, target, head - 1) == backward_scan(t, target, p as int),
                decreases p,
            {
                p = p - 1;
            }
            head = p;
        }
    }
    Range::new(anchor, head)
}


/// The result of a word motion stays within the text.
pub proof fn lemma_range_to_target_in_bounds(t: Seq<char>, target: WordMotionTarget, origin: Range)
    requires
        origin.head <= t.len(),
    ensures
        spec_range_to_target(t, target, origin).head <= t.len(),
{
    if !is_prev_target(target) {
        lemma_skip_forward(t, origin.head as int);
        let h1 = skip_forward(t, origin.head as int);
        if h1 < t.len() {
            lemma_forward_scan(t, target, h1 + 1);
        }
    } else {
        lemma_skip_backward(t, origin.head as int);
        let h1 = skip_backward(t, origin.head as int);
        if h1 > 0 {
            lemma_backward_scan(t, target, h1 - 1);
        }
    }
}

/// Up to `n` word motions from `r`, stopping early when one makes no progress.
pub open spec fn word_iterate(t: Seq<char>, target: WordMotionTarget, r: Range, n: nat) -> Range
    decreases n,
{
    if n == 0 {
        r
    } else {
        let next = spec_range_to_target(t, target, r);
        if next == r {
            r
        } else {
            word_iterate(t, target, next, (n - 1) as nat)
        }
    }
}

/// A word motion repeated `count` times from the head of `range`. A zero count,
/// or a backward motion at the start of the text, or a forward motion at its
/// end, leaves the range as it is.
pub open spec fn spec_word_move(
    t: Seq<char>,
    range: Range,
    count: nat,
    target: WordMotionTarget,
) -> Range {
    if count == 0 {
        range
    } else if (is_prev_target(target) && range.head == 0) || (!is_prev_target(target)
        && range.head == t.len()) {
        range
    } else {
        word_iterate(t, target, mk_range(range.head, range.head), count)
    }
}

/// Where the chars of a text of `len` chars are read from after a word motion
/// stopped with its head at `head`: past the char at the head going forward,
/// before the char ahead of the head going backward; at the end of the text
/// when the motion ran out of chars.
pub open spec fn pos_after_motion(len: nat, target: WordMotionTarget, head: usize) -> usize {
    if !is_prev_target(target) {
        if head < len {
            (head + 1) as usize
        } else {
            len as usize
        }
    } else {
        if head > 0 {
            (head - 1) as usize
        } else {
            0
        }
    }
}

/// The chars of a text read from an edge: what a word motion walks over.
pub struct CharsAt<'a> {
    text: RopeSlice<'a>,
    pos: usize,
}

impl<'a> CharsAt<'a> {
    #[verifier::type_invariant]
    spec fn inv(self) -> bool {
        self.pos <= rope_text(self.text).len()
    }

    pub closed spec fn spec_text(self) -> RopeSlice<'a> {
        self.text
    }

    pub closed spec fn spec_pos(self) -> usize {
        self.pos
    }

    /// The chars of `text` from the edge `pos` on.
    pub fn new(text: RopeSlice<'a>, pos: usize) -> (r: Self)
        requires
            pos <= rope_text(text).len(),
        ensures
            r.spec_text() == text,
            r.spec_pos() == pos,
    {
        CharsAt { text, pos }
    }

    /// The edge the chars are read from.
    pub fn pos(&self) -> (r: usize)
        ensures
            r == self.spec_pos(),
    {
        self.pos
    }
}

pub trait CharHelpers {
    /// The chars are read from the edge `head`.
    spec fn reads_from(&self, head: usize) -> bool;

    fn range_to_target(&mut self, target: WordMotionTarget, origin: Range) -> Range
        requires
            old(self).reads_from(origin.head),
    ;
}

impl<'a> CharHelpers for CharsAt<'a> {
    open spec fn reads_from(&self, head: usize) -> bool {
        self.spec_pos() == head
    }

    /// One word motion from `origin`, whose head is where the chars are read
    /// from (see `spec_range_to_target`). Only the anchor of `origin` is changed
    /// when the head starts on a stop, or right after line endings. The chars
    /// are left read up to the one the motion stopped on, that char included.
    fn range_to_target(&mut self, target: WordMotionTarget, origin: Range) -> (r: Range)
        ensures
            r == spec_range_to_target(rope_text(old(self).spec_text()), target, origin),
            final(self).spec_text() == old(self).spec_text(),
            final(self).spec_pos() == pos_after_motion(
                rope_text(old(self).spec_text()).len(),
                target,
                r.head,
            ),
    {
        proof {
            use_type_invariant(&*self);
            lemma_range_to_target_in_bounds(rope_text(self.text), target, origin);
        }
        let r = range_to_target(self.text, target, origin);
        let len = rope_len_chars(self.text);
        self.pos = if !is_prev(target) {
            if r.head < len {
                r.head + 1
            } else {
                len
            }
        } else {
            if r.head > 0 {
                r.head - 1
            } else {
                0
            }
        };
        r
    }
}

fn word_move(slice: RopeSlice, range: Range, count: usize, target: WordMotionTarget) -> (r: Range)
    requires
        count == 0 || range.head <= rope_text(slice).len(),
    ensures
        r == spec_word_move(rope_text(slice), range, count as nat, target),
{
    let ghost t = rope_text(slice);
    if count == 0 {
        return range;
    }
    let prev = is_prev(target);
    let len = rope_len_chars(slice);
    if (prev && range.head == 0) || (!prev && range.head == len) {
        return range;
    }
    let mut range = Range::point(range.head);
    let ghost start = range;
    let mut k: usize = 0;
    while k < count
        invariant
            t == rope_text(slice),
            k <= count,
            range.head <= t.len(),
            word_iterate(t, target, start, count as nat) == word_iterate(
                t,
                target,
                range,
                (count - k) as nat,
            ),
        decreases count - k,
    {
        let next_range = CharsAt::new(slice, range.head).range_to_target(target, range);
        proof {
            lemma_range_to_target_in_bounds(t, target, range);
        }
        if range == next_range {
            k = count;
        } else {
            range = next_range;
            k = k + 1;
        }
    }
    range
}

pub fn move_next_word_start(slice: RopeSlice, range: Range, count: usize) -> (r: Range)
    requires
        count == 0 || range.head <= rope_text(slice).len(),
    ensures
        r == spec_word_move(rope_text(slice), range, count as nat, WordMotionTarget::NextWordStart),
{
    word_move(slice, range, count, WordMotionTarget::NextWordStart)
}

pub fn move_next_word_end(slice: RopeSlice, range: Range, count: usize) -> (r: Range)
    requires
        count == 0 || range.head <= rope_text(slice).len(),
    ensures
        r == spec_word_move(rope_text(slice), range, count as nat, WordMotionTarget::NextWordEnd),
{
    word_move(slice, range, count, WordMotionTarget::NextWordEnd)
}

pub fn move_prev_word_start(slice: RopeSlice, range: Range, count: usize) -> (r: Range)
    requires
        count == 0 || range.head <= rope_text(slice).len(),
    ensures
        r == spec_word_move(rope_text(slice), range, count as nat, WordMotionTarget::PrevWordStart),
{
    word_move(slice, range, count, WordMotionTarget::PrevWordStart)
}

pub fn move_prev_word_end(slice: RopeSlice, range: Range, count: usize) -> (r: Range)
    requires
        count == 0 || range.head <= rope_text(slice).len(),
    ensures
        r == spec_word_move(rope_text(slice), range, count as nat, WordMotionTarget::PrevWordEnd),
{
    word_move(slice, range, count, WordMotionTarget::PrevWordEnd)
}

pub fn move_next_long_word_start(slice: RopeSlice, range: Range, count: usize) -> (r: Range)
    requires
        count == 0 || range.head <= rope_text(slice).len(),
    ensures
        r == spec_word_move(rope_text(slice), range, count as nat, WordMotionTarget::NextLongWordStart),
{
    word_move(slice, range, count, WordMotionTarget::NextLongWordStart)
}

pub fn move_next_long_word_end(slice: RopeSlice, range: Range, count: usize) -> (r: Range)
    requires
        count == 0 || range.head <= rope_text(slice).len(),
    ensures
        r == spec_word_move(rope_text(slice), range, count as nat, WordMotionTarget::NextLongWordEnd),
{
    word_move(slice, range, count, WordMotionTarget::NextLongWordEnd)
}

pub fn move_prev_long_word_start(slice: RopeSlice, range: Range, count: usize) -> (r: Range)
    requires
        count == 0 || range.head <= rope_text(slice).len(),
    ensures
        r == spec_word_move(rope_text(slice), range, count as nat, WordMotionTarget::PrevLongWordStart),
{
    word_move(slice, range, count, WordMotionTarget::PrevLongWordStart)
}

pub fn move_prev_long_word_end(slice: RopeSlice, range: Range, count: usize) -> (r: Range)
    requires
        count == 0 || range.head <= rope_text(slice).len(),
    ensures
        r == spec_word_move(rope_text(slice), range, count as nat, WordMotionTarget::PrevLongWordEnd),
{
    word_move(slice, range, count, WordMotionTarget::PrevLongWordEnd)
}

pub fn move_next_sub_word_start(slice: RopeSlice, range: Range, count: usize) -> (r: Range)
    requires
        count == 0 || range.head <= rope_text(slice).len(),
    ensures
        r == spec_word_move(rope_text(slice), range, count as nat, WordMotionTarget::NextSubWordStart),
{
    word_move(slice, range, count, WordMotionTarget::NextSubWordStart)
}

pub fn move_next_sub_word_end(slice: RopeSlice, range: Range, count: usize) -> (r: Range)
    requires
        count == 0 || range.head <= rope_text(slice).len(),
    ensures
        r == spec_word_move(rope_text(slice), range, count as nat, WordMotionTarget::NextSubWordEnd),
{
    word_move(slice, range, count, WordMotionTarget::NextSubWordEnd)
}

pub fn move_prev_sub_word_start(slice: RopeSlice, range: Range, count: usize) -> (r: Range)
    requires
        count == 0 || range.head <= rope_text(slice).len(),
    ensures
        r == spec_word_move(rope_text(slice), range, count as nat, WordMotionTarget::PrevSubWordStart),
{
    word_move(slice, range, count, WordMotionTarget::PrevSubWordStart)
}

pub fn move_prev_sub_word_end(slice: RopeSlice, range: Range, count: usize) -> (r: Range)
    requires
        count == 0 || range.head <= rope_text(slice).len(),
    ensures
        r == spec_word_move(rope_text(slice), range, count as nat, WordMotionTarget::PrevSubWordEnd),
{
    word_move(slice, range, count, WordMotionTarget::PrevSubWordEnd)
}


/// A zero count leaves the range unchanged, for every word and paragraph motion.
pub proof fn lemma_zero_count_is_identity(
    t: Seq<char>,
    range: Range,
    target: WordMotionTarget,
    behavior: Movement,
)
    ensures
        spec_word_move(t, range, 0, target) == range,
        spec_move_prev_paragraph(t, range, 0, behavior) == range,
        spec_move_next_paragraph(t, range, 0, behavior) == range,
{
}

/// A word motion from the edge of the text it moves toward leaves the range
/// unchanged, whatever the count: a backward motion from the start, a forward
/// motion from the end.
pub proof fn lemma_word_move_at_its_end_is_identity(
    t: Seq<char>,
    range: Range,
    count: nat,
    target: WordMotionTarget,
)
    requires
        (is_prev_target(target) && range.head == 0) || (!is_prev_target(target) && range.head
            == t.len()),
    ensures
        spec_word_move(t, range, count, target) == range,
{
}

/// The three shapes of a motion with destination `d`: a linear selecting motion
/// selects from the old head to `d`, a relocation makes a point at `d`, and in
/// Select mode both keep the anchor and move the head to `d`. Either way the
/// head ends at `d`.
pub proof fn lemma_destination_shapes(range: Range, d: usize)
    ensures
        spec_destination(DestinationMotion::LinearSelecting, range, d, Movement::Move) == mk_range(
            range.head,
            d,
        ),
        spec_destination(DestinationMotion::Relocation, range, d, Movement::Move) == mk_range(d, d),
        spec_destination(DestinationMotion::LinearSelecting, range, d, Movement::Extend) == mk_range(
            range.anchor,
            d,
        ),
        spec_destination(DestinationMotion::Relocation, range, d, Movement::Extend) == mk_range(
            range.anchor,
            d,
        ),
{
}


proof fn lemma_back_over_bounds(t: Seq<char>, l: int, empty: bool)
    requires
        0 <= l,
    ensures
        0 <= back_over(t, l, empty) <= l,
    decreases l,
{
    if l > 0 && is_empty_line(t, l - 1) == empty {
        lemma_back_over_bounds(t, l - 1, empty);
    }
}

proof fn lemma_forward_over_bounds(t: Seq<char>, l: int, empty: bool)
    requires
        0 <= l <= line_count(t),
    ensures
        l <= forward_over(t, l, empty) <= line_count(t),
    decreases line_count(t) - l,
{
    if l < line_count(t) && is_empty_line(t, l) == empty {
        lemma_forward_over_bounds(t, l + 1, empty);
    }
}

proof fn lemma_paragraph_lines_bounds(t: Seq<char>, l: int, n: nat)
    requires
        0 <= l <= line_count(t),
    ensures
        0 <= prev_paragraph_line(t, l, n) <= line_count(t),
        0 <= next_paragraph_line(t, l, n) <= line_count(t),
    decreases n,
{
    if n > 0 {
        lemma_back_over_bounds(t, l, true);
        lemma_back_over_bounds(t, back_over(t, l, true), false);
        lemma_forward_over_bounds(t, l, false);
        lemma_forward_over_bounds(t, forward_over(t, l, false), true);
        lemma_paragraph_lines_bounds(t, back_over(t, back_over(t, l, true), false), (n - 1) as nat);
        lemma_paragraph_lines_bounds(
            t,
            forward_over(t, forward_over(t, l, false), true),
            (n - 1) as nat,
        );
    }
}

/// Paragraph motions move the cursor to the first edge of a line, or to the
/// end of the text.
pub proof fn lemma_paragraph_motions_land_on_line_starts(
    t: Seq<char>,
    range: Range,
    count: nat,
    behavior: Movement,
)
    requires
        count > 0,
        range.head <= t.len(),
        t.len() <= usize::MAX,
    ensures
        spec_move_prev_paragraph(t, range, count, behavior).head == t.len() || exists|l: int|
            is_line_start(t, l, spec_move_prev_paragraph(t, range, count, behavior).head as int),
        spec_move_next_paragraph(t, range, count, behavior).head == t.len() || exists|l: int|
            is_line_start(t, l, spec_move_next_paragraph(t, range, count, behavior).head as int),
{
    lemma_line_of_bound(t, range.head as int);
    let lp = prev_paragraph_line(t, prev_paragraph_first_line(t, range.head as int), count);
    let ln = next_paragraph_line(t, next_paragraph_first_line(t, range.head as int), count);
    lemma_paragraph_lines_bounds(t, prev_paragraph_first_line(t, range.head as int), count);
    lemma_paragraph_lines_bounds(t, next_paragraph_first_line(t, range.head as int), count);
    if lp < line_count(t) {
        lemma_line_start_exists(t, lp);
    }
    if ln < line_count(t) {
        lemma_line_start_exists(t, ln);
    }
}


proof fn lemma_prev_paragraph_line_le(t: Seq<char>, l: int, n: nat)
    requires
        0 <= l,
    ensures
        0 <= prev_paragraph_line(t, l, n) <= l,
    decreases n,
{
    if n > 0 {
        lemma_back_over_bounds(t, l, true);
        lemma_back_over_bounds(t, back_over(t, l, true), false);
        lemma_prev_paragraph_line_le(t, back_over(t, back_over(t, l, true), false), (n - 1) as nat);
    }
}

/// A backward paragraph motion never moves the cursor forward, always lands
/// on the first edge of a line, and keeps the anchor as the movement says: the
/// old head when moving, the old anchor when extending.
pub proof fn lemma_prev_paragraph_lands_on_line_start(
    t: Seq<char>,
    range: Range,
    count: nat,
    behavior: Movement,
)
    requires
        count > 0,
        range.head <= t.len(),
        t.len() <= usize::MAX,
    ensures
        ({
            let r = spec_move_prev_paragraph(t, range, count, behavior);
            &&& r.head <= range.head
            &&& is_line_start(t, line_of(t, r.head as int) as int, r.head as int)
            &&& r.anchor == (if behavior == Movement::Move {
                range.head
            } else {
                range.anchor
            })
        }),
{
    let head = range.head as int;
    lemma_line_of_bound(t, head);
    let line = line_of(t, head) as int;
    let f = prev_paragraph_first_line(t, head);
    let s1 = back_over(t, back_over(t, f, true), false);
    lemma_back_over_bounds(t, f, true);
    lemma_back_over_bounds(t, back_over(t, f, true), false);
    if f == line + 1 {
        assert(line > 0);
        assert(back_over(t, f, true) == f);
        assert(back_over(t, line, false) == line);
        assert(s1 == line);
    }
    assert(s1 <= line);
    assert(prev_paragraph_line(t, f, count) == prev_paragraph_line(t, s1, (count - 1) as nat));
    lemma_prev_paragraph_line_le(t, s1, (count - 1) as nat);
    let lp = prev_paragraph_line(t, f, count);
    lemma_line_start_exists(t, lp);
    lemma_line_start_vs_edge(t, lp, head);
    let d = line_start(t, lp);
    lemma_destination_shapes(range, d as usize);
}

proof fn lemma_range_to_target_direction(t: Seq<char>, target: WordMotionTarget, origin: Range)
    requires
        origin.head <= t.len(),
        origin.anchor <= t.len(),
        t.len() <= usize::MAX,
    ensures
        spec_range_to_target(t, target, origin).head <= t.len(),
        spec_range_to_target(t, target, origin).anchor <= t.len(),
        !is_prev_target(target) ==> origin.head <= spec_range_to_target(t, target, origin).head,
        is_prev_target(target) ==> spec_range_to_target(t, target, origin).head <= origin.head,
{
    if !is_prev_target(target) {
        lemma_skip_forward(t, origin.head as int);
        let h1 = skip_forward(t, origin.head as int);
        if h1 < t.len() {
            lemma_forward_scan(t, target, h1 + 1);
        }
    } else {
        lemma_skip_backward(t, origin.head as int);
        let h1 = skip_backward(t, origin.head as int);
        if h1 > 0 {
            lemma_backward_scan(t, target, h1 - 1);
        }
    }
}

proof fn lemma_word_iterate_direction(t: Seq<char>, target: WordMotionTarget, r: Range, n: nat)
    requires
        r.head <= t.len(),
        r.anchor <= t.len(),
        t.len() <= usize::MAX,
    ensures
        word_iterate(t, target, r, n).head <= t.len(),
        word_iterate(t, target, r, n).anchor <= t.len(),
        !is_prev_target(target) ==> r.head <= word_iterate(t, target, r, n).head,
        is_prev_target(target) ==> word_iterate(t, target, r, n).head <= r.head,
    decreases n,
{
    if n > 0 {
        let next = spec_range_to_target(t, target, r);
        lemma_range_to_target_direction(t, target, r);
        if next != r {
            lemma_word_iterate_direction(t, target, next, (n - 1) as nat);
        }
    }
}

/// Word motions move the cursor in their direction only: a motion to a next
/// word never moves it back, one to a previous word never moves it forward,
/// and the result stays within the text.
pub proof fn lemma_word_motions_keep_direction(
    t: Seq<char>,
    range: Range,
    count: nat,
    target: WordMotionTarget,
)
    requires
        range.head <= t.len(),
        range.anchor <= t.len(),
        t.len() <= usize::MAX,
    ensures
        spec_word_move(t, range, count, target).head <= t.len(),
        spec_word_move(t, range, count, target).anchor <= t.len(),
        !is_prev_target(target) ==> range.head <= spec_word_move(t, range, count, target).head,
        is_prev_target(target) ==> spec_word_move(t, range, count, target).head <= range.head,
{
    if count > 0 {
        lemma_word_iterate_direction(t, target, mk_range(range.head, range.head), count);
    }
}


/// The lines up to the one holding edge `i` start at or before `i`; the lines
/// after it start after `i` (or at the end of the text).
proof fn lemma_line_start_vs_edge(t: Seq<char>, l: int, i: int)
    requires
        0 <= i <= t.len(),
        0 <= l <= line_count(t),
    ensures
        l <= line_of(t, i) ==> line_start(t, l) <= i,
        l > line_of(t, i) ==> line_start(t, l) >= i,
{
    lemma_line_of_bound(t, i);
    if l < line_count(t) {
        lemma_line_start_exists(t, l);
        let p = line_start(t, l);
        if l <= line_of(t, i) && p > i {
            lemma_count_lf_take_mono(t, i, p - 1);
            lemma_count_lf_take_mono(t, p - 1, p);
            assert(t.take(p).drop_last() =~= t.take(p - 1));
        }
        if l > line_of(t, i) && p < i {
            lemma_count_lf_take_mono(t, p, i);
        }
    }
}

proof fn lemma_next_paragraph_advances(t: Seq<char>, l: int, n: nat)
    requires
        0 <= l <= line_count(t),
        n > 0,
    ensures
        next_paragraph_line(t, l, n) == line_count(t) || next_paragraph_line(t, l, n) > l,
    decreases n,
{
    let f = forward_over(t, l, false);
    lemma_forward_over_bounds(t, l, false);
    lemma_forward_over_bounds(t, f, true);
    let g = forward_over(t, f, true);
    if l < line_count(t) {
        if !is_empty_line(t, l) {
            lemma_forward_over_bounds(t, l + 1, false);
        } else {
            assert(f == l);
            lemma_forward_over_bounds(t, l + 1, true);
        }
    }
    assert(next_paragraph_line(t, l, n) == next_paragraph_line(t, g, (n - 1) as nat));
    if n > 1 {
        lemma_paragraph_lines_bounds(t, g, (n - 1) as nat);
        lemma_next_paragraph_advances(t, g, (n - 1) as nat);
    } else {
        assert(next_paragraph_line(t, g, 0) == g);
    }
}

proof fn lemma_prev_paragraph_retreats(t: Seq<char>, l: int, n: nat)
    requires
        0 <= l,
    ensures
        prev_paragraph_line(t, l, n) <= l,
    decreases n,
{
    if n > 0 {
        let b = back_over(t, l, true);
        lemma_back_over_bounds(t, l, true);
        lemma_back_over_bounds(t, b, false);
        lemma_prev_paragraph_retreats(t, back_over(t, b, false), (n - 1) as nat);
    }
}

/// Paragraph motions move the cursor in their direction only: backward to a
/// line start at or before it, forward to a line start after it or to the end
/// of the text.
pub proof fn lemma_paragraph_motions_keep_direction(
    t: Seq<char>,
    range: Range,
    count: nat,
    behavior: Movement,
)
    requires
        count > 0,
        range.head <= t.len(),
        t.len() <= usize::MAX,
    ensures
        spec_move_prev_paragraph(t, range, count, behavior).head <= range.head,
        spec_move_next_paragraph(t, range, count, behavior).head >= range.head,
{
    let h = range.head as int;
    let c = line_of(t, h) as int;
    lemma_line_of_bound(t, h);
    let p0 = prev_paragraph_first_line(t, h);
    let lp = prev_paragraph_line(t, p0, count);
    lemma_paragraph_lines_bounds(t, p0, count);
    if p0 == c + 1 {
        let b = back_over(t, p0, true);
        assert(!is_empty_line(t, c));
        assert(b == p0);
        lemma_back_over_bounds(t, c, false);
        lemma_prev_paragraph_retreats(t, back_over(t, b, false), (count - 1) as nat);
        lemma_back_over_bounds(t, p0, true);
        lemma_paragraph_lines_bounds(t, back_over(t, b, false), (count - 1) as nat);
    } else {
        lemma_prev_paragraph_retreats(t, p0, count);
    }
    lemma_line_start_vs_edge(t, lp, h);
    if lp < line_count(t) {
        lemma_line_start_exists(t, lp);
    }
    let n0 = next_paragraph_first_line(t, h);
    let ln = next_paragraph_line(t, n0, count);
    lemma_paragraph_lines_bounds(t, n0, count);
    lemma_next_paragraph_advances(t, n0, count);
    lemma_line_start_vs_edge(t, ln, h);
    if ln < line_count(t) {
        lemma_line_start_exists(t, ln);
    }
}

} // verus!
