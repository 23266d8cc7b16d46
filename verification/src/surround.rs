//! Finding the pairs of surround characters around a cursor.

use crate::graphemes::{lemma_next_edge, next_edge, next_grapheme_boundary, GraphemeText};
use crate::movement::{char_at, Direction};
use crate::search::{
    find_nth_next, find_nth_prev, first_at_or_after, last_before, lemma_first_at_or_after,
    lemma_last_before, spec_find_nth_next, spec_find_nth_prev,
};
use crate::selection::{
    adjacent_candidates, adjacent_char_positions, spec_direction, spec_from, spec_to, Range,
    Selection,
};
use crate::text::{rope_get_char, rope_len_chars, rope_text};
use ropey::RopeSlice;
use vstd::prelude::*;
use vstd::relations::{sorted_by, total_ordering};
use vstd::seq_lib::lemma_sorted_unique;

verus! {

/// Why no surround pair could be found.
#[derive(Debug, Copy, Clone, PartialEq, Eq, Structural)]
pub enum Error {
    PairNotFound,
    CursorOverlap,
    RangeExceedsText,
    CursorOnAmbiguousPair,
}

impl Error {
    /// The message shown for this error.
    pub fn message(&self) -> (r: &'static str)
        ensures
            r@ == (match *self {
                Error::PairNotFound => "Surround pair not found around all cursors"@,
                Error::CursorOverlap => "Cursors overlap for a single surround pair range"@,
                Error::RangeExceedsText => "Cursor range exceeds text length"@,
                Error::CursorOnAmbiguousPair => "Cursor on ambiguous surround pair"@,
            }),
    {
        match *self {
            Error::PairNotFound => "Surround pair not found around all cursors",
            Error::CursorOverlap => "Cursors overlap for a single surround pair range",
            Error::RangeExceedsText => "Cursor range exceeds text length",
            Error::CursorOnAmbiguousPair => "Cursor on ambiguous surround pair",
        }
    }
}


/// An optional index as an optional integer.
pub open spec fn opt_int(o: Option<usize>) -> Option<int> {
    match o {
        Some(i) => Some(i as int),
        None => None,
    }
}

/// Walking back from edge `i` with `depth` closing chars still unmatched, the
/// index of the opening char that matches the walk's start.
pub open spec fn scan_open(t: Seq<char>, open: char, close: char, i: int, depth: nat) -> Option<int>
    decreases i,
{
    if i <= 0 {
        None
    } else if t[i - 1] == close {
        scan_open(t, open, close, i - 1, depth + 1)
    } else if t[i - 1] == open {
        if depth == 0 {
            Some(i - 1)
        } else {
            scan_open(t, open, close, i - 1, (depth - 1) as nat)
        }
    } else {
        scan_open(t, open, close, i - 1, depth)
    }
}

/// `n` enclosing opening chars outward from index `p`.
pub open spec fn nth_open(t: Seq<char>, open: char, close: char, p: int, n: nat) -> Option<int>
    decreases n,
{
    if n == 0 {
        Some(p)
    } else {
        match scan_open(t, open, close, p, 0) {
            None => None,
            Some(q) => nth_open(t, open, close, q, (n - 1) as nat),
        }
    }
}

/// The opening char of the `n`th pair around `pos`: a closing char just before
/// EOF counts as the cursor's char, and a cursor on an opening char is that
/// pair's opening.
pub open spec fn spec_find_nth_open_pair(t: Seq<char>, open: char, close: char, pos: int, n: nat) -> Option<int> {
    if pos > t.len() {
        None
    } else {
        let p = if pos == t.len() && 0 < pos && t[pos - 1] == close {
            pos - 1
        } else {
            pos
        };
        if t[p] == open {
            Some(p)
        } else {
            nth_open(t, open, close, p, n)
        }
    }
}

/// Walking forward from index `i` with `depth` opening chars still unmatched,
/// the index of the closing char that matches the walk's start.
pub open spec fn scan_close(t: Seq<char>, open: char, close: char, i: int, depth: nat) -> Option<int>
    decreases t.len() - i,
{
    if i >= t.len() || i < 0 {
        None
    } else if t[i] == open {
        scan_close(t, open, close, i + 1, depth + 1)
    } else if t[i] == close {
        if depth == 0 {
            Some(i)
        } else {
            scan_close(t, open, close, i + 1, (depth - 1) as nat)
        }
    } else {
        scan_close(t, open, close, i + 1, depth)
    }
}

/// `n` enclosing closing chars outward from index `p`.
pub open spec fn nth_close(t: Seq<char>, open: char, close: char, p: int, n: nat) -> Option<int>
    decreases n,
{
    if n == 0 {
        Some(p)
    } else {
        match scan_close(t, open, close, p + 1, 0) {
            None => None,
            Some(q) => nth_close(t, open, close, q, (n - 1) as nat),
        }
    }
}

/// The closing char of the `n`th pair around `pos`: a closing char just before
/// EOF is the cursor's char, and a cursor on a closing char is that pair's
/// closing.
pub open spec fn spec_find_nth_close_pair(t: Seq<char>, open: char, close: char, pos: int, n: nat) -> Option<int> {
    if pos > t.len() {
        None
    } else if pos == t.len() && 0 < pos && t[pos - 1] == close {
        Some(pos - 1)
    } else if pos == t.len() {
        None
    } else if t[pos] == close {
        Some(pos)
    } else {
        nth_close(t, open, close, pos, n)
    }
}

/// Finds the opening char of the `n`th pair of `open`/`close` around `pos`,
/// stepping over pairs nested inside it.
pub fn find_nth_open_pair(text: RopeSlice, open: char, close: char, pos: usize, n: usize) -> (r:
    Option<usize>)
    requires
        pos != rope_text(text).len() || (0 < pos && rope_text(text)[pos - 1] == close),
    ensures
        opt_int(r) == spec_find_nth_open_pair(rope_text(text), open, close, pos as int, n as nat),
{
    let ghost t = rope_text(text);
    let ghost target = spec_find_nth_open_pair(t, open, close, pos as int, n as nat);
    let len = rope_len_chars(text);
    if len < pos {
        return None;
    }
    let mut p = pos;
    if p == len && 0 < p && char_at(text, p - 1) == close {
        p = p - 1;
    }
    if char_at(text, p) == open {
        return Some(p);
    }
    let mut k: usize = 0;
    while k < n
        invariant
            t == rope_text(text),
            len == t.len(),
            p < len,
            k <= n,
            nth_open(t, open, close, p as int, (n - k) as nat) == target,
            target == spec_find_nth_open_pair(t, open, close, pos as int, n as nat),
        decreases n - k,
    {
        let mut step_over: usize = 0;
        let mut i = p;
        loop
            invariant_except_break
                scan_open(t, open, close, i as int, step_over as nat) == scan_open(
                    t,
                    open,
                    close,
                    p as int,
                    0,
                ),
            invariant
                t == rope_text(text),
                len == t.len(),
                i <= p < len,
                k < n,
                step_over <= p - i,
                nth_open(t, open, close, p as int, (n - k) as nat) == target,
                target == spec_find_nth_open_pair(t, open, close, pos as int, n as nat),
            target == spec_find_nth_open_pair(t, open, close, pos as int, n as nat),
            ensures
                i < p,
                scan_open(t, open, close, p as int, 0) == Some(i as int),
            decreases i,
        {
            if i == 0 {
                return None;
            }
            let c = char_at(text, i - 1);
            i = i - 1;
            if c == close {
                step_over = step_over + 1;
            } else if c == open {
                if step_over == 0 {
                    break;
                }
                step_over = step_over - 1;
            }
        }
        p = i;
        k = k + 1;
    }
    Some(p)
}

/// Finds the closing char of the `n`th pair of `open`/`close` around `pos`,
/// stepping over pairs nested inside it.
pub fn find_nth_close_pair(text: RopeSlice, open: char, close: char, pos: usize, n: usize) -> (r:
    Option<usize>)
    ensures
        opt_int(r) == spec_find_nth_close_pair(rope_text(text), open, close, pos as int, n as nat),
{
    let ghost t = rope_text(text);
    let ghost target = spec_find_nth_close_pair(t, open, close, pos as int, n as nat);
    let len = rope_len_chars(text);
    if len < pos {
        return None;
    }
    if pos == len && 0 < pos && char_at(text, pos - 1) == close {
        return Some(pos - 1);
    }
    if pos == len {
        return None;
    }
    if char_at(text, pos) == close {
        return Some(pos);
    }
    let mut p = pos;
    let mut k: usize = 0;
    while k < n
        invariant
            t == rope_text(text),
            len == t.len(),
            p < len,
            k <= n,
            nth_close(t, open, close, p as int, (n - k) as nat) == target,
            target == spec_find_nth_close_pair(t, open, close, pos as int, n as nat),
        decreases n - k,
    {
        let mut step_over: usize = 0;
        let mut i = p + 1;
        loop
            invariant
                t == rope_text(text),
                len == t.len(),
                p < i <= len,
                k < n,
                step_over <= i - p,
                scan_close(t, open, close, i as int, step_over as nat) == scan_close(
                    t,
                    open,
                    close,
                    p + 1,
                    0,
                ),
                nth_close(t, open, close, p as int, (n - k) as nat) == target,
                target == spec_find_nth_close_pair(t, open, close, pos as int, n as nat),
            target == spec_find_nth_close_pair(t, open, close, pos as int, n as nat),
            ensures
                p < i < len,
                scan_close(t, open, close, p + 1, 0) == Some(i as int),
            decreases len - i,
        {
            if i == len {
                return None;
            }
            let c = char_at(text, i);
            if c == open {
                step_over = step_over + 1;
            } else if c == close {
                if step_over == 0 {
                    break;
                }
                step_over = step_over - 1;
            }
            i = i + 1;
        }
        p = i;
        k = k + 1;
    }
    Some(p)
}


/// The pair formed by two identical delimiters at `first` and `second`, in
/// either order, encloses `range`: it starts at or before the range and its
/// closing grapheme ends at or after it.
pub open spec fn spec_identical_pair_encloses(t: Seq<char>, first: int, second: int, range: Range) -> bool {
    let (open, close) = if first < second {
        (first, second)
    } else {
        (second, first)
    };
    open <= spec_from(range) && spec_to(range) <= next_edge(t, close)
}

/// Whether the delimiters at `first` and `second` enclose `range`.
pub fn identical_pair_encloses(text: RopeSlice, first: usize, second: usize, range: Range) -> (r: bool)
    requires
        first <= rope_text(text).len(),
        second <= rope_text(text).len(),
    ensures
        r == spec_identical_pair_encloses(rope_text(text), first as int, second as int, range),
{
    let (open, close) = if first < second {
        (first, second)
    } else {
        (second, first)
    };
    open <= range.from() && range.to() <= next_grapheme_boundary(text, close)
}

/// The delimiter matching the one at `pos` in plain text: the nearest one after
/// it when that pair encloses `range`, else the nearest one before it when that
/// pair does.
pub open spec fn spec_matching_identical_delimiter(t: Seq<char>, pos: int, delimiter: char, range: Range) -> Option<int> {
    let forward = first_at_or_after(t, delimiter, pos + 1);
    let backward = last_before(t, delimiter, pos);
    if forward is Some && spec_identical_pair_encloses(t, pos, forward->0, range) {
        forward
    } else if backward is Some && spec_identical_pair_encloses(t, pos, backward->0, range) {
        backward
    } else {
        None
    }
}

/// Finds the delimiter that pairs with the identical one at `pos` in plain text.
pub fn matching_identical_delimiter_plaintext(
    text: RopeSlice,
    pos: usize,
    delimiter: char,
    range: Range,
) -> (r: Option<usize>)
    requires
        pos < rope_text(text).len(),
    ensures
        opt_int(r) == spec_matching_identical_delimiter(rope_text(text), pos as int, delimiter, range),
{
    let ghost t = rope_text(text);
    let len = rope_len_chars(text);
    let mut j = pos + 1;
    while j < len && char_at(text, j) != delimiter
        invariant
            t == rope_text(text),
            len == t.len(),
            pos < j <= len,
            first_at_or_after(t, delimiter, j as int) == first_at_or_after(
                t,
                delimiter,
                pos + 1,
            ),
        decreases len - j,
    {
        j = j + 1;
    }
    let forward = if j < len {
        Some(j)
    } else {
        None
    };
    let mut i = pos;
    while i > 0 && char_at(text, i - 1) != delimiter
        invariant
            t == rope_text(text),
            len == t.len(),
            i <= pos < len,
            last_before(t, delimiter, i as int) == last_before(t, delimiter, pos as int),
        decreases i,
    {
        i = i - 1;
    }
    let backward = if i > 0 {
        Some(i - 1)
    } else {
        None
    };
    proof {
        lemma_first_at_or_after(t, delimiter, pos + 1);
        lemma_last_before(t, delimiter, pos as int);
    }
    if let Some(m) = forward {
        if identical_pair_encloses(text, pos, m, range) {
            return Some(m);
        }
    }
    if let Some(m) = backward {
        if identical_pair_encloses(text, pos, m, range) {
            return Some(m);
        }
    }
    None
}


/// The first pair of `brackets`, from index `i` on, that opens with `ch`.
pub open spec fn opening_bracket(brackets: Seq<(char, char)>, ch: char, i: int) -> Option<int>
    decreases brackets.len() - i,
{
    if i >= brackets.len() || i < 0 {
        None
    } else if brackets[i].0 == ch {
        Some(i)
    } else {
        opening_bracket(brackets, ch, i + 1)
    }
}

/// The first pair of `brackets`, from index `i` on, that closes with `ch`.
pub open spec fn closing_bracket(brackets: Seq<(char, char)>, ch: char, i: int) -> Option<int>
    decreases brackets.len() - i,
{
    if i >= brackets.len() || i < 0 {
        None
    } else if brackets[i].1 == ch {
        Some(i)
    } else {
        closing_bracket(brackets, ch, i + 1)
    }
}

proof fn lemma_bracket_index(brackets: Seq<(char, char)>, ch: char, i: int)
    requires
        0 <= i,
    ensures
        opening_bracket(brackets, ch, i) matches Some(b) ==> i <= b < brackets.len(),
        closing_bracket(brackets, ch, i) matches Some(b) ==> i <= b < brackets.len(),
    decreases brackets.len() - i,
{
    if i < brackets.len() {
        lemma_bracket_index(brackets, ch, i + 1);
    }
}

fn find_opening(brackets: &[(char, char)], ch: char) -> (r: Option<usize>)
    ensures
        opt_int(r) == opening_bracket(brackets@, ch, 0),
{
    let mut i: usize = 0;
    while i < brackets.len()
        invariant
            i <= brackets@.len(),
            opening_bracket(brackets@, ch, i as int) == opening_bracket(brackets@, ch, 0),
        decreases brackets@.len() - i,
    {
        if brackets[i].0 == ch {
            return Some(i);
        }
        i = i + 1;
    }
    None
}

fn find_closing(brackets: &[(char, char)], ch: char) -> (r: Option<usize>)
    ensures
        opt_int(r) == closing_bracket(brackets@, ch, 0),
{
    let mut i: usize = 0;
    while i < brackets.len()
        invariant
            i <= brackets@.len(),
            closing_bracket(brackets@, ch, i as int) == closing_bracket(brackets@, ch, 0),
        decreases brackets@.len() - i,
    {
        if brackets[i].1 == ch {
            return Some(i);
        }
        i = i + 1;
    }
    None
}

/// The state of a bracket scan: the unmatched opening positions of every kind of
/// bracket, and the matched pairs found so far that enclose the range.
pub type BracketScan = (Seq<Seq<usize>>, Seq<(usize, usize)>);

/// Reads the char at `pos`: an opening bracket is remembered; a closing bracket
/// matches the last unmatched opening bracket of its kind, and the pair is kept
/// when it starts at or before the range and its closing grapheme ends at or
/// after it.
pub open spec fn scan_bracket_step(
    t: Seq<char>,
    brackets: Seq<(char, char)>,
    range: Range,
    st: BracketScan,
    pos: int,
) -> BracketScan {
    let ch = t[pos];
    match opening_bracket(brackets, ch, 0) {
        Some(b) => (st.0.update(b, st.0[b].push(pos as usize)), st.1),
        None => match closing_bracket(brackets, ch, 0) {
            None => st,
            Some(b) => if st.0[b].len() == 0 {
                st
            } else {
                let open_pos = st.0[b].last();
                let stacks = st.0.update(b, st.0[b].drop_last());
                if open_pos <= spec_from(range) && spec_to(range) <= next_edge(t, pos) {
                    (stacks, st.1.push((open_pos, pos as usize)))
                } else {
                    (stacks, st.1)
                }
            },
        },
    }
}

/// The bracket scan after reading the first `n` chars of `t`.
pub open spec fn scan_brackets(t: Seq<char>, brackets: Seq<(char, char)>, range: Range, n: int) -> BracketScan
    decreases n,
{
    if n <= 0 {
        (Seq::new(brackets.len(), |i: int| Seq::<usize>::empty()), Seq::empty())
    } else {
        scan_bracket_step(t, brackets, range, scan_brackets(t, brackets, range, n - 1), n - 1)
    }
}

/// How close a pair is to a point cursor: 0 when an end of the pair is at the
/// cursor, 1 when the cursor is just after one of its brackets, 2 otherwise
/// (and always 2 for a nonempty range).
pub open spec fn pair_affinity(t: Seq<char>, range: Range, p: (usize, usize)) -> int {
    if range.anchor == range.head && (p.0 == range.head || p.1 == range.head) {
        0
    } else if range.anchor == range.head && (next_edge(t, p.0 as int) == range.head || next_edge(
        t,
        p.1 as int,
    ) == range.head) {
        1
    } else {
        2
    }
}

/// The distance between the brackets of a pair.
pub open spec fn span_len(p: (usize, usize)) -> int {
    if p.0 <= p.1 {
        p.1 - p.0
    } else {
        0
    }
}

/// Pair `a` is closer than pair `b`: by affinity, then span, then position.
pub open spec fn closer_pair(t: Seq<char>, range: Range, a: (usize, usize), b: (usize, usize)) -> bool {
    let (ka, kb) = (pair_affinity(t, range, a), pair_affinity(t, range, b));
    ||| ka < kb
    ||| ka == kb && span_len(a) < span_len(b)
    ||| ka == kb && span_len(a) == span_len(b) && a.0 < b.0
    ||| ka == kb && span_len(a) == span_len(b) && a.0 == b.0 && a.1 < b.1
}

/// The first of the closest pairs of `c`.
pub open spec fn closest_of(t: Seq<char>, range: Range, c: Seq<(usize, usize)>) -> (usize, usize)
    decreases c.len(),
{
    if c.len() <= 1 {
        c[0]
    } else {
        let m = closest_of(t, range, c.drop_last());
        if closer_pair(t, range, c.last(), m) {
            c.last()
        } else {
            m
        }
    }
}

/// Order of pairs by span, then opening position, then closing position.
pub open spec fn span_le(a: (usize, usize), b: (usize, usize)) -> bool {
    ||| span_len(a) < span_len(b)
    ||| span_len(a) == span_len(b) && a.0 < b.0
    ||| span_len(a) == span_len(b) && a.0 == b.0 && a.1 <= b.1
}

pub open spec fn span_order() -> spec_fn((usize, usize), (usize, usize)) -> bool {
    |a: (usize, usize), b: (usize, usize)| span_le(a, b)
}

proof fn lemma_span_order_total()
    ensures
        total_ordering(span_order()),
{
}

/// `p` is another pair that holds `base`.
pub open spec fn encloses_base(p: (usize, usize), base: (usize, usize)) -> bool {
    p != base && p.0 <= base.0 && base.1 <= p.1
}

/// A pair as `(anchor, head)` in the direction of `range`.
pub open spec fn oriented(range: Range, p: (usize, usize)) -> (usize, usize) {
    if spec_direction(range) == Direction::Forward {
        p
    } else {
        (p.1, p.0)
    }
}

/// The `skip`th closest pair around `range` in plain text: the closest pair
/// that encloses it for `skip == 1`; otherwise, among the pairs that hold that
/// one, the one at rank `skip - 2` by span.
pub open spec fn spec_closest_pairs_plain(
    t: Seq<char>,
    brackets: Seq<(char, char)>,
    range: Range,
    skip: nat,
) -> Result<(usize, usize), Error> {
    let c = scan_brackets(t, brackets, range, t.len() as int).1;
    if c.len() == 0 {
        Err(Error::PairNotFound)
    } else {
        let base = closest_of(t, range, c);
        if skip == 1 {
            Ok(oriented(range, base))
        } else {
            let parents = c.filter(|p: (usize, usize)| encloses_base(p, base));
            let index = skip - 2;
            if parents.len() <= index {
                Err(Error::PairNotFound)
            } else {
                Ok(oriented(range, parents.sort_by(span_order())[index]))
            }
        }
    }
}

/// The sort key of a pair by span.
fn span_key(p: &(usize, usize)) -> (r: (usize, usize, usize))
    ensures
        r == (span_len(*p) as usize, p.0, p.1),
{
    let len = if p.0 <= p.1 {
        p.1 - p.0
    } else {
        0
    };
    (len, p.0, p.1)
}

/// `slice::select_nth_unstable_by_key` with `span_key`: the slice is reordered
/// so that the element at `index` has every element before it at or below it
/// and every element after it at or above it in span order.
#[verifier::external_body]
fn select_nth_by_span(v: &mut Vec<(usize, usize)>, index: usize)
    requires
        index < old(v)@.len(),
    ensures
        final(v)@.to_multiset() == old(v)@.to_multiset(),
        final(v)@.len() == old(v)@.len(),
        forall|i: int| 0 <= i < index ==> span_le(#[trigger] final(v)@[i], final(v)@[index as int]),
        forall|j: int|
            index < j < final(v)@.len() ==> span_le(final(v)@[index as int], #[trigger] final(v)@[j]),
{
    v.select_nth_unstable_by_key(index, |p| span_key(p));
}

/// An element with everything before it at or below it and everything after
/// it at or above it is the element of that rank in sorted order.
proof fn lemma_selected_is_ranked(v: Seq<(usize, usize)>, w: Seq<(usize, usize)>, index: int)
    requires
        0 <= index < v.len(),
        v.to_multiset() == w.to_multiset(),
        forall|i: int| 0 <= i < index ==> span_le(#[trigger] v[i], v[index]),
        forall|j: int| index < j < v.len() ==> span_le(v[index], #[trigger] v[j]),
    ensures
        w.sort_by(span_order())[index] == v[index],
{
    broadcast use vstd::seq_lib::group_to_multiset_ensures;
    broadcast use vstd::multiset::group_multiset_axioms;

    let o = span_order();
    lemma_span_order_total();
    let x = v[index];
    let left = v.take(index);
    let right = v.skip(index + 1);
    left.lemma_sort_by_ensures(o);
    right.lemma_sort_by_ensures(o);
    w.lemma_sort_by_ensures(o);
    let ls = left.sort_by(o);
    let rs = right.sort_by(o);
    let u = ls + seq![x] + rs;
    vstd::seq_lib::to_multiset_len(left);
    vstd::seq_lib::to_multiset_len(ls);
    assert(ls.len() == index);
    assert forall|i: int| 0 <= i < ls.len() implies span_le(#[trigger] ls[i], x) by {
        assert(ls.contains(ls[i]));
        assert(left.contains(ls[i]));
        let k = choose|k: int| 0 <= k < left.len() && left[k] == ls[i];
        assert(v[k] == ls[i]);
    }
    assert forall|j: int| 0 <= j < rs.len() implies span_le(x, #[trigger] rs[j]) by {
        assert(rs.contains(rs[j]));
        assert(right.contains(rs[j]));
        let k = choose|k: int| 0 <= k < right.len() && right[k] == rs[j];
        assert(v[index + 1 + k] == rs[j]);
    }
    assert(sorted_by(u, o)) by {
        assert forall|a: int, b: int| 0 <= a < b < u.len() implies #[trigger] o(u[a], u[b]) by {
            if b < index {
                assert(o(ls[a], ls[b]));
            } else if b == index {
                assert(u[a] == ls[a]);
            } else if a < index {
                assert(u[a] == ls[a] && u[b] == rs[b - index - 1]);
                assert(span_le(ls[a], x));
                assert(span_le(x, rs[b - index - 1]));
            } else if a == index {
                assert(u[b] == rs[b - index - 1]);
            } else {
                assert(u[a] == rs[a - index - 1] && u[b] == rs[b - index - 1]);
                assert(o(rs[a - index - 1], rs[b - index - 1]));
            }
        }
    }
    assert(v =~= left + seq![x] + right);
    vstd::seq_lib::lemma_multiset_commutative(left + seq![x], right);
    vstd::seq_lib::lemma_multiset_commutative(left, seq![x]);
    vstd::seq_lib::lemma_multiset_commutative(ls + seq![x], rs);
    vstd::seq_lib::lemma_multiset_commutative(ls, seq![x]);
    assert(u.to_multiset() =~= v.to_multiset());
    lemma_sorted_unique(u, w.sort_by(o), o);
    assert(u[index] == x);
}


fn pair_affinity_at(g: &GraphemeText, range: Range, p: (usize, usize)) -> (r: usize)
    requires
        g.wf(),
        p.0 <= g.len_chars,
        p.1 <= g.len_chars,
    ensures
        r == pair_affinity(g.text@, range, p),
{
    if range.anchor == range.head && (p.0 == range.head || p.1 == range.head) {
        0
    } else if range.anchor == range.head && (g.next(p.0) == range.head || g.next(p.1) == range.head) {
        1
    } else {
        2
    }
}

fn is_closer_pair(g: &GraphemeText, range: Range, a: (usize, usize), b: (usize, usize)) -> (r: bool)
    requires
        g.wf(),
        a.0 <= g.len_chars,
        a.1 <= g.len_chars,
        b.0 <= g.len_chars,
        b.1 <= g.len_chars,
    ensures
        r == closer_pair(g.text@, range, a, b),
{
    let ka = pair_affinity_at(g, range, a);
    let kb = pair_affinity_at(g, range, b);
    let la = span_key(&a).0;
    let lb = span_key(&b).0;
    ka < kb || (ka == kb && la < lb) || (ka == kb && la == lb && a.0 < b.0) || (ka == kb && la
        == lb && a.0 == b.0 && a.1 < b.1)
}

/// Finds the `skip`th closest pair of `brackets` around `range` in plain
/// text, as `(anchor, head)` in the direction of `range`.
pub fn find_nth_closest_pairs_plain(
    text: RopeSlice,
    range: Range,
    skip: usize,
    brackets: &[(char, char)],
) -> (r: Result<(usize, usize), Error>)
    requires
        skip > 0,
    ensures
        r == spec_closest_pairs_plain(rope_text(text), brackets@, range, skip as nat),
{
    let g = GraphemeText::new(text);
    let ghost t = g.text@;
    let ghost bs = brackets@;
    let len = g.len_chars;
    let nb = brackets.len();
    let mut open_positions: Vec<Vec<usize>> = Vec::new();
    while open_positions.len() < nb
        invariant
            open_positions@.len() <= nb,
            forall|b: int| 0 <= b < open_positions@.len() ==> (#[trigger] open_positions@[b])@
                == Seq::<usize>::empty(),
        decreases nb - open_positions@.len(),
    {
        open_positions.push(Vec::new());
    }
    let mut candidates: Vec<(usize, usize)> = Vec::new();
    let mut pos: usize = 0;
    proof {
        assert(scan_brackets(t, bs, range, 0).0 =~= Seq::new(
            nb as nat,
            |i: int| Seq::<usize>::empty(),
        ));
    }
    while pos < len
        invariant
            g.wf(),
            t == g.text@,
            t == rope_text(text),
            len == t.len(),
            nb == bs.len(),
            bs == brackets@,
            pos <= len,
            open_positions@.len() == nb,
            scan_brackets(t, bs, range, pos as int).0.len() == nb,
            forall|b: int|
                0 <= b < nb ==> (#[trigger] open_positions@[b])@ == scan_brackets(
                    t,
                    bs,
                    range,
                    pos as int,
                ).0[b],
            forall|b: int, i: int|
                0 <= b < nb && 0 <= i < open_positions@[b]@.len() ==> #[trigger] open_positions@[b]@[i]
                    < pos,
            candidates@ == scan_brackets(t, bs, range, pos as int).1,
            forall|i: int|
                0 <= i < candidates@.len() ==> (#[trigger] candidates@[i]).0 < candidates@[i].1 < pos,
        decreases len - pos,
    {
        let ghost st = scan_brackets(t, bs, range, pos as int);
        let ghost old_open = open_positions@;
        let ch = char_at(text, pos);
        proof {
            lemma_bracket_index(bs, ch, 0);
        }
        match find_opening(brackets, ch) {
            Some(b) => {
                let mut stack = open_positions.remove(b);
                stack.push(pos);
                open_positions.insert(b, stack);
                proof {
                    assert(open_positions@ =~= old_open.update(b as int, stack));
                    assert forall|k: int| 0 <= k < nb implies (#[trigger] open_positions@[k])@
                        == scan_brackets(t, bs, range, pos + 1).0[k] by {
                        if k != b {
                            assert(open_positions@[k] == old_open[k]);
                        }
                    }
                    assert forall|k: int, i: int|
                        0 <= k < nb && 0 <= i < open_positions@[k]@.len() implies #[trigger] open_positions@[k]@[i]
                        < pos + 1 by {
                        if k != b {
                            assert(open_positions@[k] == old_open[k]);
                        } else if i < old_open[k]@.len() {
                            assert(open_positions@[k]@[i] == old_open[k]@[i]);
                        }
                    }
                }
            },
            None => {
                match find_closing(brackets, ch) {
                    None => {},
                    Some(b) => {
                        let mut stack = open_positions.remove(b);
                        let popped = stack.pop();
                        open_positions.insert(b, stack);
                        proof {
                            assert(open_positions@ =~= old_open.update(b as int, stack));
                            assert forall|k: int| 0 <= k < nb implies (#[trigger] open_positions@[k])@
                                == scan_brackets(t, bs, range, pos + 1).0[k] by {
                                if k != b {
                                    assert(open_positions@[k] == old_open[k]);
                                }
                            }
                            assert forall|k: int, i: int|
                                0 <= k < nb && 0 <= i < open_positions@[k]@.len() implies #[trigger] open_positions@[k]@[i]
                                < pos + 1 by {
                                if k != b {
                                    assert(open_positions@[k] == old_open[k]);
                                } else {
                                    assert(open_positions@[k]@[i] == old_open[k]@[i]);
                                }
                            }
                        }
                        match popped {
                            None => {},
                            Some(open_pos) => {
                                proof {
                                    assert(old_open[b as int]@[old_open[b as int]@.len() - 1]
                                        == open_pos);
                                }
                                if open_pos <= range.from() && range.to() <= g.next(pos) {
                                    candidates.push((open_pos, pos));
                                }
                            },
                        }
                    },
                }
            },
        }
        pos = pos + 1;
    }
    let n = candidates.len();
    if n == 0 {
        return Err(Error::PairNotFound);
    }
    let ghost c = candidates@;
    let mut base = candidates[0];
    let mut i: usize = 1;
    while i < n
        invariant
            g.wf(),
            t == g.text@,
            len == t.len(),
            c == candidates@,
            n == c.len(),
            1 <= i <= n,
            forall|k: int| 0 <= k < c.len() ==> (#[trigger] c[k]).0 < c[k].1 < len,
            base == closest_of(t, range, c.take(i as int)),
            base.0 < base.1 < len,
        decreases n - i,
    {
        let x = candidates[i];
        proof {
            assert(c.take(i + 1).drop_last() =~= c.take(i as int));
            assert(c.take(i + 1).last() == x);
        }
        if is_closer_pair(&g, range, x, base) {
            base = x;
        }
        i = i + 1;
    }
    proof {
        assert(c.take(n as int) =~= c);
    }
    let pair = if skip == 1 {
        base
    } else {
        let ghost pred = |p: (usize, usize)| encloses_base(p, base);
        let mut parents: Vec<(usize, usize)> = Vec::new();
        let mut k: usize = 0;
        while k < n
            invariant
                c == candidates@,
                n == c.len(),
                k <= n,
                pred == (|p: (usize, usize)| encloses_base(p, base)),
                parents@ == c.take(k as int).filter(pred),
            decreases n - k,
        {
            let p = candidates[k];
            proof {
                assert(c.take(k + 1) =~= c.take(k as int).push(p));
                c.take(k as int).lemma_filter_push(p, pred);
            }
            if (p.0 != base.0 || p.1 != base.1) && p.0 <= base.0 && base.1 <= p.1 {
                parents.push(p);
            }
            k = k + 1;
        }
        proof {
            assert(c.take(n as int) =~= c);
        }
        let index = skip - 2;
        if parents.len() <= index {
            return Err(Error::PairNotFound);
        }
        let ghost before = parents@;
        select_nth_by_span(&mut parents, index);
        proof {
            lemma_selected_is_ranked(parents@, before, index as int);
        }
        parents[index]
    };
    match range.direction() {
        Direction::Forward => Ok(pair),
        Direction::Backward => Ok((pair.1, pair.0)),
    }
}

/// Finds the `skip`th closest pair of `brackets` around `range` in plain text;
/// a zero `skip` finds none.
pub fn find_nth_closest_pairs_pos(
    text: RopeSlice,
    range: Range,
    skip: usize,
    brackets: &[(char, char)],
) -> (r: Result<(usize, usize), Error>)
    ensures
        skip == 0 ==> r == Err::<(usize, usize), Error>(Error::PairNotFound),
        skip > 0 ==> r == spec_closest_pairs_plain(rope_text(text), brackets@, range, skip as nat),
{
    if skip == 0 {
        return Err(Error::PairNotFound);
    }
    find_nth_closest_pairs_plain(text, range, skip, brackets)
}


/// `p` is a pair of brackets of one kind around `range`: an opening bracket
/// before a closing bracket of the same kind of `brackets`, starting at or
/// before the range, its closing grapheme ending at or after it.
pub open spec fn bracket_pair_around(
    t: Seq<char>,
    brackets: Seq<(char, char)>,
    range: Range,
    p: (usize, usize),
) -> bool {
    let kind = opening_bracket(brackets, t[p.0 as int], 0);
    &&& p.0 < p.1 < t.len()
    &&& (kind matches Some(k) && 0 <= k < brackets.len() && brackets[k].0 == t[p.0 as int]
        && brackets[k].1 == t[p.1 as int])
    &&& opening_bracket(brackets, t[p.1 as int], 0) is None
    &&& closing_bracket(brackets, t[p.1 as int], 0) == kind
    &&& p.0 <= spec_from(range) && spec_to(range) <= next_edge(t, p.1 as int)
}

proof fn lemma_bracket_found(brackets: Seq<(char, char)>, ch: char, i: int)
    requires
        0 <= i,
    ensures
        opening_bracket(brackets, ch, i) matches Some(b) ==> brackets[b].0 == ch,
        closing_bracket(brackets, ch, i) matches Some(b) ==> brackets[b].1 == ch,
    decreases brackets.len() - i,
{
    if i < brackets.len() {
        lemma_bracket_found(brackets, ch, i + 1);
    }
}

/// What a bracket scan keeps: one stack per kind, each holding opening
/// brackets of its kind read so far, and pairs of brackets around the range
/// read so far.
pub open spec fn scan_sound(
    t: Seq<char>,
    brackets: Seq<(char, char)>,
    range: Range,
    st: BracketScan,
    n: int,
) -> bool {
    &&& st.0.len() == brackets.len()
    &&& forall|b: int, j: int|
        0 <= b < brackets.len() && 0 <= j < st.0[b].len() ==> #[trigger] st.0[b][j] < n
            && opening_bracket(brackets, t[st.0[b][j] as int], 0) == Some(b)
    &&& forall|i: int|
        0 <= i < st.1.len() ==> bracket_pair_around(t, brackets, range, #[trigger] st.1[i])
}

proof fn lemma_scan_sound(t: Seq<char>, brackets: Seq<(char, char)>, range: Range, n: int)
    requires
        0 <= n <= t.len(),
        t.len() <= usize::MAX,
    ensures
        scan_sound(t, brackets, range, scan_brackets(t, brackets, range, n), n),
    decreases n,
{
    if n > 0 {
        lemma_scan_sound(t, brackets, range, n - 1);
        let st = scan_brackets(t, brackets, range, n - 1);
        let pos = n - 1;
        let ch = t[pos];
        lemma_bracket_index(brackets, ch, 0);
        lemma_bracket_found(brackets, ch, 0);
        let next = scan_bracket_step(t, brackets, range, st, pos);
        match opening_bracket(brackets, ch, 0) {
            Some(b) => {
                assert(next.0 == st.0.update(b, st.0[b].push(pos as usize)));
                assert forall|c: int, j: int|
                    0 <= c < brackets.len() && 0 <= j < next.0[c].len() implies #[trigger] next.0[c][j] < n
                    && opening_bracket(brackets, t[next.0[c][j] as int], 0) == Some(c) by {
                    if c == b && j == st.0[b].len() {
                        assert(next.0[c][j] == pos as usize);
                    } else {
                        assert(next.0[c][j] == st.0[c][j]);
                    }
                }
            },
            None => match closing_bracket(brackets, ch, 0) {
                None => {},
                Some(b) => if st.0[b].len() > 0 {
                    let open_pos = st.0[b].last();
                    assert(st.0[b][st.0[b].len() - 1] == open_pos);
                    assert(open_pos < pos);
                    lemma_bracket_found(brackets, t[open_pos as int], 0);
                    assert(next.0 == st.0.update(b, st.0[b].drop_last()));
                    assert forall|c: int, j: int|
                        0 <= c < brackets.len() && 0 <= j < next.0[c].len() implies #[trigger] next.0[c][j]
                        < n && opening_bracket(brackets, t[next.0[c][j] as int], 0) == Some(c) by {
                        assert(next.0[c][j] == st.0[c][j]);
                    }
                    assert forall|i: int| 0 <= i < next.1.len() implies bracket_pair_around(
                        t,
                        brackets,
                        range,
                        #[trigger] next.1[i],
                    ) by {
                        if i < st.1.len() {
                            assert(next.1[i] == st.1[i]);
                        } else {
                            assert(next.1[i] == (open_pos, pos as usize));
                        }
                    }
                },
            },
        }
    }
}

/// A bracket scan uses every position once: each stack ascends, the pairs come
/// in ascending order of their closing brackets, no opening bracket of a pair
/// is still on a stack, and no two pairs share an opening bracket.
pub open spec fn scan_distinct(brackets: Seq<(char, char)>, st: BracketScan, n: int) -> bool {
    &&& forall|b: int, j1: int, j2: int|
        0 <= b < brackets.len() && 0 <= j1 < j2 < st.0[b].len() ==> #[trigger] st.0[b][j1]
            < #[trigger] st.0[b][j2]
    &&& forall|i: int| 0 <= i < st.1.len() ==> #[trigger] st.1[i].1 < n
    &&& forall|i1: int, i2: int|
        0 <= i1 < i2 < st.1.len() ==> #[trigger] st.1[i1].1 < #[trigger] st.1[i2].1
    &&& forall|i: int, b: int, j: int|
        0 <= i < st.1.len() && 0 <= b < brackets.len() && 0 <= j < st.0[b].len() ==> #[trigger] st.1[i].0
            != #[trigger] st.0[b][j]
    &&& forall|i1: int, i2: int|
        0 <= i1 < st.1.len() && 0 <= i2 < st.1.len() && i1 != i2 ==> #[trigger] st.1[i1].0
            != #[trigger] st.1[i2].0
}

proof fn lemma_scan_distinct(t: Seq<char>, brackets: Seq<(char, char)>, range: Range, n: int)
    requires
        0 <= n <= t.len(),
        t.len() <= usize::MAX,
    ensures
        scan_distinct(brackets, scan_brackets(t, brackets, range, n), n),
    decreases n,
{
    if n > 0 {
        lemma_scan_distinct(t, brackets, range, n - 1);
        lemma_scan_sound(t, brackets, range, n - 1);
        let st = scan_brackets(t, brackets, range, n - 1);
        let pos = n - 1;
        let ch = t[pos];
        lemma_bracket_index(brackets, ch, 0);
        let next = scan_bracket_step(t, brackets, range, st, pos);
        assert forall|i: int| 0 <= i < st.1.len() implies #[trigger] st.1[i].0 < pos by {
            assert(bracket_pair_around(t, brackets, range, st.1[i]));
        }
        match opening_bracket(brackets, ch, 0) {
            Some(b) => {
                assert(next.0 == st.0.update(b, st.0[b].push(pos as usize)));
                assert(next.1 == st.1);
                assert forall|c: int, j1: int, j2: int|
                    0 <= c < brackets.len() && 0 <= j1 < j2 < next.0[c].len() implies #[trigger] next.0[c][j1]
                    < #[trigger] next.0[c][j2] by {
                    assert(next.0[c][j1] == st.0[c][j1]);
                    if c == b && j2 == st.0[b].len() {
                        assert(st.0[c][j1] < n - 1);
                    } else {
                        assert(next.0[c][j2] == st.0[c][j2]);
                    }
                }
                assert forall|i: int, c: int, j: int|
                    0 <= i < next.1.len() && 0 <= c < brackets.len() && 0 <= j < next.0[c].len() implies #[trigger] next.1[i].0
                    != #[trigger] next.0[c][j] by {
                    if c == b && j == st.0[b].len() {
                        assert(next.0[c][j] == pos as usize);
                        assert(st.1[i].0 < pos);
                    } else {
                        assert(next.0[c][j] == st.0[c][j]);
                    }
                }
            },
            None => match closing_bracket(brackets, ch, 0) {
                None => {},
                Some(b) => if st.0[b].len() > 0 {
                    let last = st.0[b].len() - 1;
                    let open_pos = st.0[b][last];
                    assert(st.0[b].last() == open_pos);
                    assert(next.0 == st.0.update(b, st.0[b].drop_last()));
                    assert forall|c: int, j1: int, j2: int|
                        0 <= c < brackets.len() && 0 <= j1 < j2 < next.0[c].len() implies #[trigger] next.0[c][j1]
                        < #[trigger] next.0[c][j2] by {
                        assert(next.0[c][j1] == st.0[c][j1]);
                        assert(next.0[c][j2] == st.0[c][j2]);
                    }
                    if open_pos <= spec_from(range) && spec_to(range) <= next_edge(t, pos) {
                        assert(next.1 == st.1.push((open_pos, pos as usize)));
                        let k = st.1.len() as int;
                        assert forall|i: int| 0 <= i < next.1.len() implies #[trigger] next.1[i].1 < n by {
                            if i < k {
                                assert(next.1[i] == st.1[i]);
                            }
                        }
                        assert forall|i1: int, i2: int|
                            0 <= i1 < i2 < next.1.len() implies #[trigger] next.1[i1].1
                            < #[trigger] next.1[i2].1 by {
                            assert(next.1[i1] == st.1[i1]);
                            if i2 < k {
                                assert(next.1[i2] == st.1[i2]);
                            }
                        }
                        assert forall|i: int, c: int, j: int|
                            0 <= i < next.1.len() && 0 <= c < brackets.len() && 0 <= j
                                < next.0[c].len() implies #[trigger] next.1[i].0 != #[trigger] next.0[c][j] by {
                            assert(next.0[c][j] == st.0[c][j]);
                            if i < k {
                                assert(next.1[i] == st.1[i]);
                            } else {
                                if c == b {
                                    assert(st.0[b][j] < st.0[b][last]);
                                } else {
                                    assert(opening_bracket(brackets, t[st.0[c][j] as int], 0) == Some(c));
                                    assert(opening_bracket(brackets, t[open_pos as int], 0) == Some(b));
                                }
                            }
                        }
                        assert forall|i1: int, i2: int|
                            0 <= i1 < next.1.len() && 0 <= i2 < next.1.len() && i1 != i2 implies #[trigger] next.1[i1].0
                            != #[trigger] next.1[i2].0 by {
                            if i1 < k && i2 < k {
                                assert(next.1[i1] == st.1[i1]);
                                assert(next.1[i2] == st.1[i2]);
                            } else if i1 < k {
                                assert(next.1[i1] == st.1[i1]);
                                assert(st.1[i1].0 != st.0[b][last]);
                            } else {
                                assert(next.1[i2] == st.1[i2]);
                                assert(st.1[i2].0 != st.0[b][last]);
                            }
                        }
                    } else {
                        assert(next.1 == st.1);
                        assert forall|i: int, c: int, j: int|
                            0 <= i < next.1.len() && 0 <= c < brackets.len() && 0 <= j
                                < next.0[c].len() implies #[trigger] next.1[i].0 != #[trigger] next.0[c][j] by {
                            assert(next.0[c][j] == st.0[c][j]);
                        }
                    }
                },
            },
        }
    }
}

/// Opening minus closing brackets of kind `k` of `brackets` among the chars
/// `i..j` of `t`.
pub open spec fn bracket_balance(t: Seq<char>, brackets: Seq<(char, char)>, k: int, i: int, j: int) -> int
    decreases j - i,
{
    if j <= i {
        0
    } else {
        let ch = t[j - 1];
        bracket_balance(t, brackets, k, i, j - 1) + if opening_bracket(brackets, ch, 0) == Some(k) {
            1int
        } else if opening_bracket(brackets, ch, 0) is None && closing_bracket(brackets, ch, 0) == Some(
            k,
        ) {
            -1int
        } else {
            0int
        }
    }
}

/// The brackets of the kind of `p` between its two brackets are balanced:
/// every closing one closes an opening one after `p.0`, and all of them are
/// closed by `p.1`.
pub open spec fn balanced_between(t: Seq<char>, brackets: Seq<(char, char)>, p: (usize, usize)) -> bool {
    let k = opening_bracket(brackets, t[p.0 as int], 0)->0;
    &&& bracket_balance(t, brackets, k, p.0 + 1, p.1 as int) == 0
    &&& forall|m: int| p.0 < m <= p.1 ==> #[trigger] bracket_balance(t, brackets, k, p.0 + 1, m) >= 0
}

/// The stack of kind `k` after the opening bracket at `o` was read: while that
/// bracket is unmatched it stays at index `d` with the balance since then above
/// it; once matched, it never comes back.
pub open spec fn stack_since(
    t: Seq<char>,
    brackets: Seq<(char, char)>,
    range: Range,
    k: int,
    o: int,
    d: int,
    n: int,
) -> bool {
    let sk = scan_brackets(t, brackets, range, n).0[k];
    ||| (sk.len() == d + 1 + bracket_balance(t, brackets, k, o + 1, n) && sk[d] == o && forall|m: int|
        o < m <= n ==> #[trigger] bracket_balance(t, brackets, k, o + 1, m) >= 0)
    ||| (forall|j: int| 0 <= j < sk.len() ==> #[trigger] sk[j] != o)
}

proof fn lemma_stack_since(t: Seq<char>, brackets: Seq<(char, char)>, range: Range, o: int, n: int)
    requires
        0 <= o < n <= t.len(),
        t.len() <= usize::MAX,
        opening_bracket(brackets, t[o], 0) is Some,
    ensures
        stack_since(
            t,
            brackets,
            range,
            opening_bracket(brackets, t[o], 0)->0,
            o,
            scan_brackets(t, brackets, range, o).0[opening_bracket(brackets, t[o], 0)->0].len() as int,
            n,
        ),
    decreases n,
{
    let k = opening_bracket(brackets, t[o], 0)->0;
    lemma_bracket_index(brackets, t[o], 0);
    let d = scan_brackets(t, brackets, range, o).0[k].len() as int;
    lemma_scan_sound(t, brackets, range, n - 1);
    let st = scan_brackets(t, brackets, range, n - 1);
    let next = scan_brackets(t, brackets, range, n);
    assert(next == scan_bracket_step(t, brackets, range, st, n - 1));
    if n == o + 1 {
        assert(next.0[k] == st.0[k].push(o as usize));
        assert(next.0[k][d] == o);
    } else {
        lemma_stack_since(t, brackets, range, o, n - 1);
        lemma_scan_distinct(t, brackets, range, n - 1);
        let pos = n - 1;
        let ch = t[pos];
        lemma_bracket_index(brackets, ch, 0);
        let sk = st.0[k];
        let nk = next.0[k];
        let bal = bracket_balance(t, brackets, k, o + 1, pos);
        assert(bracket_balance(t, brackets, k, o + 1, n) == bal + if opening_bracket(brackets, ch, 0)
            == Some(k) {
            1int
        } else if opening_bracket(brackets, ch, 0) is None && closing_bracket(brackets, ch, 0) == Some(
            k,
        ) {
            -1int
        } else {
            0int
        });
        let alive = sk.len() == d + 1 + bal && sk[d] == o && forall|m: int|
            o < m <= pos ==> #[trigger] bracket_balance(t, brackets, k, o + 1, m) >= 0;
        match opening_bracket(brackets, ch, 0) {
            Some(b) => {
                assert(next.0 == st.0.update(b, st.0[b].push(pos as usize)));
                if b == k {
                    assert(nk == sk.push(pos as usize));
                    if !alive {
                        assert forall|j: int| 0 <= j < nk.len() implies #[trigger] nk[j] != o by {
                            if j < sk.len() {
                                assert(nk[j] == sk[j]);
                            }
                        }
                    } else {
                        assert(nk[d] == sk[d]);
                    }
                } else {
                    assert(nk == sk);
                }
            },
            None => match closing_bracket(brackets, ch, 0) {
                None => {
                    assert(next == st);
                },
                Some(b) => {
                    if sk.len() == 0 || b != k {
                        if b != k && st.0[b].len() > 0 {
                            assert(next.0 == st.0.update(b, st.0[b].drop_last()));
                        }
                        assert(nk == sk);
                    } else {
                        assert(next.0 == st.0.update(b, st.0[b].drop_last()));
                        assert(nk == sk.drop_last());
                        if alive {
                            if bal > 0 {
                                assert(nk[d] == sk[d]);
                            } else {
                                assert forall|j: int| 0 <= j < nk.len() implies #[trigger] nk[j] != o by {
                                    assert(nk[j] == sk[j]);
                                    assert(sk[j] < sk[d]);
                                }
                            }
                        } else {
                            assert forall|j: int| 0 <= j < nk.len() implies #[trigger] nk[j] != o by {
                                assert(nk[j] == sk[j]);
                            }
                        }
                    }
                },
            },
        }
    }
}

/// Each pair of a bracket scan was made when its closing bracket was read,
/// from the opening bracket on top of the stack of its kind.
proof fn lemma_scan_history(t: Seq<char>, brackets: Seq<(char, char)>, range: Range, n: int)
    requires
        0 <= n <= t.len(),
        t.len() <= usize::MAX,
    ensures
        forall|i: int|
            0 <= i < scan_brackets(t, brackets, range, n).1.len() ==> {
                let p = #[trigger] scan_brackets(t, brackets, range, n).1[i];
                let k = closing_bracket(brackets, t[p.1 as int], 0)->0;
                &&& scan_brackets(t, brackets, range, p.1 as int).0[k].len() > 0
                &&& scan_brackets(t, brackets, range, p.1 as int).0[k].last() == p.0
            },
    decreases n,
{
    if n > 0 {
        lemma_scan_history(t, brackets, range, n - 1);
        lemma_scan_sound(t, brackets, range, n - 1);
        let st = scan_brackets(t, brackets, range, n - 1);
        let next = scan_brackets(t, brackets, range, n);
        let pos = n - 1;
        assert forall|i: int| 0 <= i < next.1.len() implies {
            let p = #[trigger] next.1[i];
            let k = closing_bracket(brackets, t[p.1 as int], 0)->0;
            &&& scan_brackets(t, brackets, range, p.1 as int).0[k].len() > 0
            &&& scan_brackets(t, brackets, range, p.1 as int).0[k].last() == p.0
        } by {
            if i < st.1.len() {
                assert(next.1[i] == st.1[i]);
            } else {
                let p = next.1[i];
                assert(p.1 == pos);
            }
        }
    }
}

/// The brackets of every pair of a full bracket scan are balanced between them.
proof fn lemma_candidates_balanced(t: Seq<char>, brackets: Seq<(char, char)>, range: Range)
    requires
        t.len() <= usize::MAX,
    ensures
        forall|i: int|
            0 <= i < scan_brackets(t, brackets, range, t.len() as int).1.len() ==> balanced_between(
                t,
                brackets,
                #[trigger] scan_brackets(t, brackets, range, t.len() as int).1[i],
            ),
{
    let c = scan_brackets(t, brackets, range, t.len() as int).1;
    lemma_scan_sound(t, brackets, range, t.len() as int);
    lemma_scan_history(t, brackets, range, t.len() as int);
    assert forall|i: int| 0 <= i < c.len() implies balanced_between(t, brackets, #[trigger] c[i]) by {
        let p = c[i];
        assert(bracket_pair_around(t, brackets, range, p));
        let o = p.0 as int;
        let cl = p.1 as int;
        let k = opening_bracket(brackets, t[o], 0)->0;
        lemma_bracket_index(brackets, t[o], 0);
        let d = scan_brackets(t, brackets, range, o).0[k].len() as int;
        lemma_stack_since(t, brackets, range, o, cl);
        lemma_scan_distinct(t, brackets, range, cl);
        lemma_scan_sound(t, brackets, range, cl);
        let sk = scan_brackets(t, brackets, range, cl).0[k];
        assert(sk[sk.len() - 1] == o);
        if sk.len() - 1 > d {
            assert(sk[d] < sk[sk.len() - 1]);
        }
    }
}

proof fn lemma_closest_of_member(t: Seq<char>, range: Range, c: Seq<(usize, usize)>)
    requires
        c.len() > 0,
    ensures
        c.contains(closest_of(t, range, c)),
    decreases c.len(),
{
    if c.len() > 1 {
        lemma_closest_of_member(t, range, c.drop_last());
        let m = closest_of(t, range, c.drop_last());
        let k = choose|k: int| 0 <= k < c.drop_last().len() && c.drop_last()[k] == m;
        assert(c[k] == m);
        assert(c[c.len() - 1] == c.last());
    } else {
        assert(c[0] == closest_of(t, range, c));
    }
}

/// Every pair found around a range in plain text is a pair of brackets of one
/// kind around it, an opening bracket before a closing one with the brackets
/// of that kind between them balanced, handed back in the direction of the
/// range; and beyond the closest pair, every pair found
/// holds the closest one strictly inside it.
pub proof fn lemma_closest_pairs_plain_are_bracket_pairs(
    t: Seq<char>,
    brackets: Seq<(char, char)>,
    range: Range,
    skip: nat,
)
    requires
        skip >= 1,
        t.len() <= usize::MAX,
    ensures
        spec_closest_pairs_plain(t, brackets, range, skip) matches Ok(r) ==> {
            let p = oriented(range, r);
            &&& bracket_pair_around(t, brackets, range, p)
            &&& balanced_between(t, brackets, p)
            &&& r == oriented(range, p)
            &&& (r.0 < r.1) == (spec_direction(range) == Direction::Forward)
            &&& (skip >= 2 ==> (spec_closest_pairs_plain(t, brackets, range, 1) matches Ok(r1)
                && encloses_base(p, oriented(range, r1)) && p.0 < oriented(range, r1).0
                && oriented(range, r1).1 < p.1))
        },
{
    broadcast use vstd::seq_lib::group_to_multiset_ensures;

    let c = scan_brackets(t, brackets, range, t.len() as int).1;
    lemma_scan_sound(t, brackets, range, t.len() as int);
    lemma_scan_distinct(t, brackets, range, t.len() as int);
    lemma_candidates_balanced(t, brackets, range);
    if c.len() > 0 {
        let base = closest_of(t, range, c);
        lemma_closest_of_member(t, range, c);
        let k = choose|k: int| 0 <= k < c.len() && c[k] == base;
        assert(bracket_pair_around(t, brackets, range, c[k]));
        if skip >= 2 {
            let pred = |p: (usize, usize)| encloses_base(p, base);
            let parents = c.filter(pred);
            let index = skip - 2;
            if index < parents.len() {
                lemma_span_order_total();
                parents.lemma_sort_by_ensures(span_order());
                let sorted = parents.sort_by(span_order());
                vstd::seq_lib::to_multiset_len(parents);
                vstd::seq_lib::to_multiset_len(sorted);
                let q = sorted[index as int];
                assert(sorted.contains(q));
                assert(parents.contains(q));
                let j = choose|j: int| 0 <= j < parents.len() && parents[j] == q;
                c.lemma_filter_pred(pred, j);
                c.lemma_filter_contains_rev(pred, q);
                let i = choose|i: int| 0 <= i < c.len() && c[i] == q;
                assert(bracket_pair_around(t, brackets, range, c[i]));
                assert(i != k);
                assert(c[i].0 != c[k].0);
                if i < k {
                    assert(c[i].1 < c[k].1);
                } else {
                    assert(c[k].1 < c[i].1);
                }
            }
        }
    }
}

/// The first pair of `brackets`, from index `i` on, that holds `ch` as its
/// opening or closing char.
pub open spec fn pair_holding(brackets: Seq<(char, char)>, ch: char, i: int) -> Option<int>
    decreases brackets.len() - i,
{
    if i >= brackets.len() || i < 0 {
        None
    } else if brackets[i].0 == ch || brackets[i].1 == ch {
        Some(i)
    } else {
        pair_holding(brackets, ch, i + 1)
    }
}

/// The surround pair of `ch`: the first pair of `brackets` that holds it, or
/// `ch` on both sides.
pub open spec fn spec_get_pair(brackets: Seq<(char, char)>, ch: char) -> (char, char) {
    match pair_holding(brackets, ch, 0) {
        Some(i) => brackets[i],
        None => (ch, ch),
    }
}

proof fn lemma_pair_holding(brackets: Seq<(char, char)>, ch: char, i: int)
    requires
        0 <= i,
    ensures
        pair_holding(brackets, ch, i) matches Some(b) ==> i <= b < brackets.len(),
    decreases brackets.len() - i,
{
    if i < brackets.len() {
        lemma_pair_holding(brackets, ch, i + 1);
    }
}

/// The surround pair of `ch` in `brackets`.
pub fn get_pair(brackets: &[(char, char)], ch: char) -> (r: (char, char))
    ensures
        r == spec_get_pair(brackets@, ch),
{
    let mut i: usize = 0;
    proof {
        lemma_pair_holding(brackets@, ch, 0);
    }
    while i < brackets.len()
        invariant
            i <= brackets@.len(),
            pair_holding(brackets@, ch, i as int) == pair_holding(brackets@, ch, 0),
        decreases brackets@.len() - i,
    {
        if brackets[i].0 == ch || brackets[i].1 == ch {
            return brackets[i];
        }
        i = i + 1;
    }
    (ch, ch)
}

/// The first of the candidate indices `cands`, from position `i` on, that holds `d`.
pub open spec fn first_candidate(t: Seq<char>, cands: Seq<usize>, d: char, i: int) -> Option<int>
    decreases cands.len() - i,
{
    if i >= cands.len() || i < 0 {
        None
    } else if cands[i] < t.len() && t[cands[i] as int] == d {
        Some(cands[i] as int)
    } else {
        first_candidate(t, cands, d, i + 1)
    }
}

/// Surround discovery looks right of the cursor first and then left: the
/// delimiter after the cursor is the cursor's own when there is one, else the
/// delimiter before it, else none.
pub proof fn lemma_adjacent_delimiter_right_then_left(t: Seq<char>, d: char, head: usize)
    requires
        head <= t.len(),
    ensures
        head < t.len() && t[head as int] == d ==> first_candidate(
            t,
            adjacent_candidates(t.len(), head),
            d,
            0,
        ) == Some(head as int),
        !(head < t.len() && t[head as int] == d) && 0 < head && t[head - 1] == d ==> first_candidate(
            t,
            adjacent_candidates(t.len(), head),
            d,
            0,
        ) == Some(head - 1),
        !(head < t.len() && t[head as int] == d) && !(0 < head && t[head - 1] == d)
            ==> first_candidate(t, adjacent_candidates(t.len(), head), d, 0) is None,
{
    let c = adjacent_candidates(t.len(), head);
    reveal_with_fuel(first_candidate, 3);
    if head < t.len() {
        assert(c[0] == head);
        if head > 0 {
            assert(c.len() == 2 && c[1] == head - 1);
        } else {
            assert(c.len() == 1);
        }
    } else if head > 0 {
        assert(c.len() == 1 && c[0] == head - 1);
    } else {
        assert(c.len() == 0);
    }
}

/// From the pair `pair`, `steps` times the nearest `open` before it and the
/// nearest `close` after it.
pub open spec fn widen_pair(t: Seq<char>, open: char, close: char, pair: (int, int), steps: nat) -> Result<
    (int, int),
    Error,
>
    decreases steps,
{
    if steps == 0 {
        Ok(pair)
    } else {
        match (
            spec_find_nth_prev(t, open, pair.0, 1),
            spec_find_nth_next(t, close, next_edge(t, pair.1), 1),
        ) {
            (Some(a), Some(b)) => widen_pair(t, open, close, (a, b), (steps - 1) as nat),
            _ => Err(Error::PairNotFound),
        }
    }
}

proof fn lemma_first_at_or_after_nearest(t: Seq<char>, d: char, i: int)
    requires
        0 <= i,
    ensures
        first_at_or_after(t, d, i) matches Some(j) ==> forall|k: int| i <= k < j ==> t[k] != d,
    decreases t.len() - i,
{
    if i < t.len() && t[i] != d {
        lemma_first_at_or_after_nearest(t, d, i + 1);
    }
}

proof fn lemma_last_before_nearest(t: Seq<char>, d: char, i: int)
    ensures
        last_before(t, d, i) matches Some(j) ==> forall|k: int| j < k < i ==> t[k] != d,
    decreases i,
{
    if i > 0 && t[i - 1] != d {
        lemma_last_before_nearest(t, d, i - 1);
    }
}

proof fn lemma_widen_last(t: Seq<char>, open: char, close: char, pair: (int, int), steps: nat)
    ensures
        widen_pair(t, open, close, pair, steps + 1) == match widen_pair(t, open, close, pair, steps) {
            Ok(p) => widen_pair(t, open, close, p, 1),
            Err(e) => Err(e),
        },
    decreases steps,
{
    if steps > 0 {
        let after = next_edge(t, pair.1);
        match (spec_find_nth_prev(t, open, pair.0, 1), spec_find_nth_next(t, close, after, 1)) {
            (Some(a), Some(b)) => {
                lemma_widen_last(t, open, close, (a, b), (steps - 1) as nat);
            },
            _ => {},
        }
    }
}

proof fn lemma_widen_bounds(t: Seq<char>, open: char, close: char, pair: (int, int), steps: nat)
    requires
        0 <= pair.0,
        0 <= pair.1 < t.len(),
    ensures
        widen_pair(t, open, close, pair, steps) matches Ok(p) ==> 0 <= p.0 && 0 <= p.1 < t.len(),
    decreases steps,
{
    if steps > 0 {
        let a = spec_find_nth_prev(t, open, pair.0, 1);
        let b = spec_find_nth_next(t, close, next_edge(t, pair.1), 1);
        lemma_last_before(t, open, pair.0);
        lemma_next_edge(t, pair.1);
        lemma_first_at_or_after(t, close, next_edge(t, pair.1));
        if let (Some(x), Some(y)) = (a, b) {
            lemma_widen_bounds(t, open, close, (x, y), (steps - 1) as nat);
        }
    }
}

/// The plain-text match of the delimiter at `pos` is another `delimiter`
/// whose pair with it encloses `range`: the nearest one after `pos` when that
/// pair encloses the range, else the nearest one before `pos` when that pair
/// does, else none.
pub proof fn lemma_matching_identical_delimiter(t: Seq<char>, pos: int, delimiter: char, range: Range)
    requires
        0 <= pos < t.len(),
    ensures
        spec_matching_identical_delimiter(t, pos, delimiter, range) matches Some(m) ==> {
            &&& 0 <= m < t.len() && m != pos && t[m] == delimiter
            &&& spec_identical_pair_encloses(t, pos, m, range)
            &&& (pos < m ==> forall|k: int| pos < k < m ==> t[k] != delimiter)
            &&& (m < pos ==> forall|k: int| m < k < pos ==> t[k] != delimiter)
            &&& (m < pos ==> forall|k: int|
                pos < k < t.len() && t[k] == delimiter && (forall|l: int| pos < l < k ==> t[l] != delimiter)
                    ==> !spec_identical_pair_encloses(t, pos, k, range))
        },
        spec_matching_identical_delimiter(t, pos, delimiter, range) is None ==> forall|k: int|
            0 <= k < t.len() && k != pos && t[k] == delimiter && (forall|l: int|
                (pos < l < k || k < l < pos) ==> t[l] != delimiter) ==> !spec_identical_pair_encloses(
                t,
                pos,
                k,
                range,
            ),
{
    lemma_first_at_or_after(t, delimiter, pos + 1);
    lemma_first_at_or_after_nearest(t, delimiter, pos + 1);
    lemma_last_before(t, delimiter, pos);
    lemma_last_before_nearest(t, delimiter, pos);
    lemma_first_at_or_after_reaches(t, delimiter, pos + 1);
    lemma_last_before_reaches(t, delimiter, pos);
}

proof fn lemma_first_at_or_after_reaches(t: Seq<char>, d: char, i: int)
    requires
        0 <= i,
    ensures
        forall|k: int|
            i <= k < t.len() && t[k] == d && (forall|l: int| i <= l < k ==> t[l] != d) ==> first_at_or_after(t, d, i)
                == Some(k),
    decreases t.len() - i,
{
    if i < t.len() && t[i] != d {
        lemma_first_at_or_after_reaches(t, d, i + 1);
    }
}

proof fn lemma_last_before_reaches(t: Seq<char>, d: char, i: int)
    ensures
        forall|k: int|
            0 <= k < i && t[k] == d && (forall|l: int| k < l < i ==> t[l] != d) ==> last_before(t, d, i) == Some(
                k,
            ),
    decreases i,
{
    if i > 0 && t[i - 1] != d {
        lemma_last_before_reaches(t, d, i - 1);
    }
}

/// Widening a pair of identical delimiters one step more either fails or
/// gives a pair strictly around the one before: its opening delimiter is the
/// nearest `open` before the previous opening one, and its closing delimiter
/// the nearest `close` after the grapheme of the previous closing one.
pub proof fn lemma_widen_pair_nests(
    t: Seq<char>,
    open: char,
    close: char,
    pair: (int, int),
    steps: nat,
)
    requires
        0 <= pair.0,
        0 <= pair.1 < t.len(),
    ensures
        widen_pair(t, open, close, pair, steps + 1) matches Ok(q) ==> (widen_pair(
            t,
            open,
            close,
            pair,
            steps,
        ) matches Ok(p) && {
            &&& 0 <= q.0 < p.0 && t[q.0] == open
            &&& forall|k: int| q.0 < k < p.0 ==> t[k] != open
            &&& p.1 < next_edge(t, p.1) <= q.1 < t.len() && t[q.1] == close
            &&& forall|k: int| next_edge(t, p.1) <= k < q.1 ==> t[k] != close
        }),
{
    lemma_widen_last(t, open, close, pair, steps);
    lemma_widen_bounds(t, open, close, pair, steps);
    if let Ok(p) = widen_pair(t, open, close, pair, steps) {
        let ne = next_edge(t, p.1);
        lemma_next_edge(t, p.1);
        lemma_last_before(t, open, p.0);
        lemma_last_before_nearest(t, open, p.0);
        lemma_first_at_or_after(t, close, ne);
        lemma_first_at_or_after_nearest(t, close, ne);
        assert(widen_pair(t, open, close, p, 1) == match (
            spec_find_nth_prev(t, open, p.0, 1),
            spec_find_nth_next(t, close, ne, 1),
        ) {
            (Some(a), Some(b)) => widen_pair(t, open, close, (a, b), 0),
            _ => Err(Error::PairNotFound),
        });
    }
}

/// The delimiter matching the one at `pair_pos`: the syntax tree's match when
/// it encloses the range, else the plain-text match.
pub open spec fn identical_match(
    t: Seq<char>,
    pair_pos: int,
    delimiter: char,
    range: Range,
    syntax_match: Option<usize>,
) -> Option<int> {
    match syntax_match {
        Some(m) => if spec_identical_pair_encloses(t, pair_pos, m as int, range) {
            Some(m as int)
        } else {
            spec_matching_identical_delimiter(t, pair_pos, delimiter, range)
        },
        None => spec_matching_identical_delimiter(t, pair_pos, delimiter, range),
    }
}

/// The opening and closing positions found around the cursor, before the
/// range's direction is applied.
pub open spec fn pair_positions(
    t: Seq<char>,
    brackets: Seq<(char, char)>,
    ch: char,
    range: Range,
    n: nat,
    syntax_match: Option<usize>,
) -> Result<(Option<int>, Option<int>), Error> {
    let (open, close) = spec_get_pair(brackets, ch);
    let pos = range.head as int;
    if open == close {
        match first_candidate(t, adjacent_candidates(t.len(), range.head), open, 0) {
            Some(pair_pos) => match identical_match(t, pair_pos, open, range, syntax_match) {
                None => Err(Error::CursorOnAmbiguousPair),
                Some(m) => {
                    let pair = if pair_pos < m {
                        (pair_pos, m)
                    } else {
                        (m, pair_pos)
                    };
                    match widen_pair(t, open, close, pair, if n >= 1 { (n - 1) as nat } else { 0 }) {
                        Ok(p) => Ok((Some(p.0), Some(p.1))),
                        Err(e) => Err(e),
                    }
                },
            },
            None => Ok((spec_find_nth_prev(t, open, pos, n), spec_find_nth_next(t, close, pos, n))),
        }
    } else {
        Ok(
            (
                spec_find_nth_open_pair(t, open, close, pos, n),
                spec_find_nth_close_pair(t, open, close, pos, n),
            ),
        )
    }
}

/// The `n`th pair of surround chars of `ch` around `range`, as `(anchor,
/// head)` in the direction of `range`. Texts of fewer than two chars have no
/// pair, and a range past the end is refused. When `ch` is its own closing
/// char, a delimiter right of the cursor, else left of it, is the cursor's
/// own, and its match is looked for as `identical_match` says; otherwise the
/// pair is searched outward from the cursor.
pub open spec fn spec_find_nth_pairs_pos(
    t: Seq<char>,
    brackets: Seq<(char, char)>,
    ch: char,
    range: Range,
    n: nat,
    syntax_match: Option<usize>,
) -> Result<(int, int), Error> {
    if t.len() < 2 {
        Err(Error::PairNotFound)
    } else if t.len() < spec_to(range) {
        Err(Error::RangeExceedsText)
    } else {
        match pair_positions(t, brackets, ch, range, n, syntax_match) {
            Err(e) => Err(e),
            Ok((Some(o), Some(c))) => Ok(
                if spec_direction(range) == Direction::Forward {
                    (o, c)
                } else {
                    (c, o)
                },
            ),
            Ok(_) => Err(Error::PairNotFound),
        }
    }
}

/// What `find_nth_pairs_pos` needs to run: a search for a pair of distinct
/// chars from EOF starts on a closing char, and a syntax match is an edge of
/// the text.
pub open spec fn pairs_pos_ok(
    t: Seq<char>,
    brackets: Seq<(char, char)>,
    ch: char,
    range: Range,
    syntax_match: Option<usize>,
) -> bool {
    &&& (2 <= t.len() && spec_to(range) <= t.len() && spec_get_pair(brackets, ch).0 != spec_get_pair(
        brackets,
        ch,
    ).1 ==> (range.head != t.len() || t[t.len() - 1] == spec_get_pair(brackets, ch).1))
    &&& (syntax_match matches Some(m) ==> m <= t.len())
}

/// A result with its positions as integers.
pub open spec fn res_int(r: Result<(usize, usize), Error>) -> Result<(int, int), Error> {
    match r {
        Ok((a, b)) => Ok((a as int, b as int)),
        Err(e) => Err(e),
    }
}

/// The first of the candidate positions `cands` that holds `d`.
fn first_holding(text: RopeSlice, cands: &Vec<usize>, d: char) -> (r: Option<usize>)
    ensures
        opt_int(r) == first_candidate(rope_text(text), cands@, d, 0),
        r matches Some(p) ==> p < rope_text(text).len() && rope_text(text)[p as int] == d,
{
    let ghost t = rope_text(text);
    let mut i: usize = 0;
    while i < cands.len()
        invariant
            t == rope_text(text),
            i <= cands@.len(),
            first_candidate(t, cands@, d, i as int) == first_candidate(t, cands@, d, 0),
        decreases cands@.len() - i,
    {
        let cand = cands[i];
        if let Some(c) = rope_get_char(text, cand) {
            if c == d {
                return Some(cand);
            }
        }
        i = i + 1;
    }
    None
}

/// Widens `pair` `steps` times to the nearest `open` before it and the
/// nearest `close` after it.
fn widen_identical_pair(
    text: RopeSlice,
    open: char,
    close: char,
    pair: (usize, usize),
    steps: usize,
) -> (r: Result<(usize, usize), Error>)
    requires
        pair.0 <= rope_text(text).len(),
        pair.1 <= rope_text(text).len(),
    ensures
        res_int(r) == widen_pair(
            rope_text(text),
            open,
            close,
            (pair.0 as int, pair.1 as int),
            steps as nat,
        ),
{
    let ghost t = rope_text(text);
    let mut cur = pair;
    let mut k: usize = 0;
    while k < steps
        invariant
            t == rope_text(text),
            cur.0 <= t.len(),
            cur.1 <= t.len(),
            k <= steps,
            widen_pair(t, open, close, (cur.0 as int, cur.1 as int), (steps - k) as nat)
                == widen_pair(t, open, close, (pair.0 as int, pair.1 as int), steps as nat),
        decreases steps - k,
    {
        let outer_open = match find_nth_prev(text, open, cur.0, 1) {
            Some(a) => a,
            None => {
                return Err(Error::PairNotFound);
            },
        };
        let after = next_grapheme_boundary(text, cur.1);
        let outer_close = match find_nth_next(text, close, after, 1) {
            Some(b) => b,
            None => {
                return Err(Error::PairNotFound);
            },
        };
        cur = (outer_open, outer_close);
        k = k + 1;
    }
    Ok(cur)
}

/// The pair around the cursor when `open` is its own closing char and a
/// delimiter at `pair_pos` touches the cursor.
fn identical_pair_at(
    text: RopeSlice,
    open: char,
    close: char,
    pair_pos: usize,
    range: Range,
    n: usize,
    syntax_match: Option<usize>,
) -> (r: Result<(usize, usize), Error>)
    requires
        pair_pos < rope_text(text).len(),
        syntax_match matches Some(m) ==> m <= rope_text(text).len(),
    ensures
        res_int(r) == (match identical_match(rope_text(text), pair_pos as int, open, range, syntax_match) {
            None => Err(Error::CursorOnAmbiguousPair),
            Some(m) => widen_pair(
                rope_text(text),
                open,
                close,
                if (pair_pos as int) < m {
                    (pair_pos as int, m)
                } else {
                    (m, pair_pos as int)
                },
                if n >= 1 {
                    (n - 1) as nat
                } else {
                    0
                },
            ),
        }),
{
    let ghost t = rope_text(text);
    let from_syntax = match syntax_match {
        Some(m) => if identical_pair_encloses(text, pair_pos, m, range) {
            Some(m)
        } else {
            None
        },
        None => None,
    };
    proof {
        lemma_first_at_or_after(t, open, pair_pos + 1);
        lemma_last_before(t, open, pair_pos as int);
    }
    let matching = match from_syntax {
        Some(m) => m,
        None => match matching_identical_delimiter_plaintext(text, pair_pos, open, range) {
            Some(m) => m,
            None => {
                return Err(Error::CursorOnAmbiguousPair);
            },
        },
    };
    let pair = if pair_pos < matching {
        (pair_pos, matching)
    } else {
        (matching, pair_pos)
    };
    let steps: usize = if n >= 1 {
        n - 1
    } else {
        0
    };
    widen_identical_pair(text, open, close, pair, steps)
}

/// The delimiter under the cursor that `find_nth_pairs_pos` pairs up when `ch`
/// is its own closing char: the one right of the cursor, else the one left of
/// it. None for a pair of distinct chars, for a text of fewer than two chars,
/// for a range past the end, or when no such delimiter touches the cursor.
pub open spec fn spec_identical_delimiter_at(
    t: Seq<char>,
    brackets: Seq<(char, char)>,
    ch: char,
    range: Range,
) -> Option<int> {
    let (open, close) = spec_get_pair(brackets, ch);
    if t.len() < 2 || t.len() < spec_to(range) || open != close {
        None
    } else {
        first_candidate(t, adjacent_candidates(t.len(), range.head), open, 0)
    }
}

/// The position of the delimiter that `find_nth_pairs_pos` takes as the
/// cursor's own, the one whose match a syntax tree is asked for.
pub fn identical_delimiter_at(
    text: RopeSlice,
    ch: char,
    range: Range,
    brackets: &[(char, char)],
) -> (r: Option<usize>)
    ensures
        opt_int(r) == spec_identical_delimiter_at(rope_text(text), brackets@, ch, range),
        r matches Some(p) ==> p < rope_text(text).len(),
{
    let len = rope_len_chars(text);
    if len < 2 || len < range.to() {
        return None;
    }
    let (open, close) = get_pair(brackets, ch);
    if open != close {
        return None;
    }
    let adjacent = match adjacent_char_positions(text, range.cursor(text)) {
        Ok(v) => v,
        Err(_) => {
            return None;
        },
    };
    first_holding(text, &adjacent, open)
}

/// Finds the `n`th pair of surround chars of `ch` (its opening or closing
/// char) around `range`. `syntax_match` is the syntax tree's match for the
/// delimiter at `identical_delimiter_at`, when a tree is at hand.
pub fn find_nth_pairs_pos(
    text: RopeSlice,
    ch: char,
    range: Range,
    n: usize,
    brackets: &[(char, char)],
    syntax_match: Option<usize>,
) -> (r: Result<(usize, usize), Error>)
    requires
        pairs_pos_ok(rope_text(text), brackets@, ch, range, syntax_match),
    ensures
        rope_text(text).len() < 2 ==> r == Err::<(usize, usize), Error>(Error::PairNotFound),
        2 <= rope_text(text).len() < spec_to(range) ==> r == Err::<(usize, usize), Error>(
            Error::RangeExceedsText,
        ),
        res_int(r) == spec_find_nth_pairs_pos(rope_text(text), brackets@, ch, range, n as nat, syntax_match),
{
    let ghost t = rope_text(text);
    let len = rope_len_chars(text);
    if len < 2 {
        return Err(Error::PairNotFound);
    }
    if len < range.to() {
        return Err(Error::RangeExceedsText);
    }
    let (open, close) = get_pair(brackets, ch);
    let pos = range.cursor(text);
    let found: (Option<usize>, Option<usize>) = if open == close {
        let adjacent = match adjacent_char_positions(text, pos) {
            Ok(v) => v,
            Err(_) => {
                return Err(Error::RangeExceedsText);
            },
        };
        match first_holding(text, &adjacent, open) {
            Some(pair_pos) => match identical_pair_at(text, open, close, pair_pos, range, n, syntax_match) {
                Ok(p) => (Some(p.0), Some(p.1)),
                Err(e) => {
                    return Err(e);
                },
            },
            None => (find_nth_prev(text, open, pos, n), find_nth_next(text, close, pos, n)),
        }
    } else {
        (find_nth_open_pair(text, open, close, pos, n), find_nth_close_pair(text, open, close, pos, n))
    };
    match (found, range.direction()) {
        ((Some(o), Some(c)), Direction::Forward) => Ok((o, c)),
        ((Some(o), Some(c)), Direction::Backward) => Ok((c, o)),
        _ => Err(Error::PairNotFound),
    }
}

/// The surround pair found for one range, as `(anchor, head)`: for `ch` when
/// it is given, else the closest pair of `brackets`.
pub open spec fn surround_pair_of(
    t: Seq<char>,
    brackets: Seq<(char, char)>,
    range: Range,
    ch: Option<char>,
    skip: nat,
) -> Result<(int, int), Error> {
    match ch {
        Some(c) => spec_find_nth_pairs_pos(t, brackets, c, range, skip, None),
        None => if skip == 0 {
            Err(Error::PairNotFound)
        } else {
            res_int(spec_closest_pairs_plain(t, brackets, range, skip))
        },
    }
}

/// Positions as integers.
pub open spec fn as_ints(v: Seq<usize>) -> Seq<int> {
    v.map_values(|x: usize| x as int)
}

/// The surround positions of the first `k` ranges, two per range in forward
/// order; the first failure stops the walk, and a position found twice is an
/// overlap.
pub open spec fn surround_positions(
    t: Seq<char>,
    brackets: Seq<(char, char)>,
    ranges: Seq<Range>,
    ch: Option<char>,
    skip: nat,
    k: nat,
) -> Result<Seq<int>, Error>
    decreases k,
{
    if k == 0 {
        Ok(Seq::empty())
    } else {
        match surround_positions(t, brackets, ranges, ch, skip, (k - 1) as nat) {
            Err(e) => Err(e),
            Ok(acc) => match surround_pair_of(t, brackets, ranges[k - 1], ch, skip) {
                Err(e) => Err(e),
                Ok((a, b)) => {
                    let (lo, hi) = if a <= b {
                        (a, b)
                    } else {
                        (b, a)
                    };
                    if acc.contains(lo) || acc.contains(hi) {
                        Err(Error::CursorOverlap)
                    } else {
                        Ok(acc + seq![lo, hi])
                    }
                },
            },
        }
    }
}

/// What the walk over the first `k` ranges needs: each range that it reaches
/// meets the needs of the pair search for `ch`.
pub open spec fn surround_ok(
    t: Seq<char>,
    brackets: Seq<(char, char)>,
    ranges: Seq<Range>,
    ch: Option<char>,
    skip: nat,
    k: nat,
) -> bool
    decreases k,
{
    if k == 0 {
        true
    } else {
        &&& surround_ok(t, brackets, ranges, ch, skip, (k - 1) as nat)
        &&& (surround_positions(t, brackets, ranges, ch, skip, (k - 1) as nat) is Ok ==> (
        ch matches Some(c) ==> pairs_pos_ok(t, brackets, c, ranges[k - 1], None)))
    }
}

proof fn lemma_surround_ok_prefix(
    t: Seq<char>,
    brackets: Seq<(char, char)>,
    ranges: Seq<Range>,
    ch: Option<char>,
    skip: nat,
    j: nat,
    k: nat,
)
    requires
        j <= k,
        surround_ok(t, brackets, ranges, ch, skip, k),
    ensures
        surround_ok(t, brackets, ranges, ch, skip, j),
    decreases k,
{
    if j < k {
        lemma_surround_ok_prefix(t, brackets, ranges, ch, skip, j, (k - 1) as nat);
    }
}

proof fn lemma_surround_err_stays(
    t: Seq<char>,
    brackets: Seq<(char, char)>,
    ranges: Seq<Range>,
    ch: Option<char>,
    skip: nat,
    j: nat,
    k: nat,
)
    requires
        j <= k,
        surround_positions(t, brackets, ranges, ch, skip, j) is Err,
    ensures
        surround_positions(t, brackets, ranges, ch, skip, k) == surround_positions(
            t,
            brackets,
            ranges,
            ch,
            skip,
            j,
        ),
    decreases k,
{
    if j < k {
        lemma_surround_err_stays(t, brackets, ranges, ch, skip, j, (k - 1) as nat);
    }
}

/// A result of positions as integers.
pub open spec fn res_ints(r: Result<Vec<usize>, Error>) -> Result<Seq<int>, Error> {
    match r {
        Ok(v) => Ok(as_ints(v@)),
        Err(e) => Err(e),
    }
}

/// Whether `x` is among the positions `v`.
fn holds_position(v: &Vec<usize>, x: usize) -> (r: bool)
    ensures
        r == as_ints(v@).contains(x as int),
{
    let mut i: usize = 0;
    while i < v.len()
        invariant
            i <= v@.len(),
            forall|j: int| 0 <= j < i ==> v@[j] != x,
        decreases v@.len() - i,
    {
        if v[i] == x {
            assert(as_ints(v@)[i as int] == x as int);
            return true;
        }
        i = i + 1;
    }
    proof {
        if as_ints(v@).contains(x as int) {
            let j = choose|j: int| 0 <= j < as_ints(v@).len() && as_ints(v@)[j] == x as int;
            assert(v@[j] == x);
        }
    }
    false
}

/// The positions of the surround chars around every range of `selection`,
/// two per range in forward order. `ch` is the opening or closing char to look
/// for; without it, the closest pair of `brackets` is taken around each range.
/// A position found for two ranges is an overlap.
pub fn get_surround_pos(
    text: RopeSlice,
    selection: &Selection,
    ch: Option<char>,
    skip: usize,
    brackets: &[(char, char)],
) -> (r: Result<Vec<usize>, Error>)
    requires
        surround_ok(
            rope_text(text),
            brackets@,
            selection.spec_ranges(),
            ch,
            skip as nat,
            selection.spec_ranges().len(),
        ),
    ensures
        res_ints(r) == surround_positions(
            rope_text(text),
            brackets@,
            selection.spec_ranges(),
            ch,
            skip as nat,
            selection.spec_ranges().len(),
        ),
{
    let ghost t = rope_text(text);
    let ranges = selection.ranges();
    let ghost rs = ranges@;
    let mut change_pos: Vec<usize> = Vec::new();
    let mut k: usize = 0;
    assert(as_ints(change_pos@) =~= Seq::<int>::empty());
    while k < ranges.len()
        invariant
            t == rope_text(text),
            rs == ranges@,
            rs == selection.spec_ranges(),
            k <= rs.len(),
            surround_ok(t, brackets@, rs, ch, skip as nat, rs.len()),
            surround_positions(t, brackets@, rs, ch, skip as nat, k as nat) == Ok::<Seq<int>, Error>(
                as_ints(change_pos@),
            ),
        decreases rs.len() - k,
    {
        let range = ranges[k];
        proof {
            lemma_surround_ok_prefix(t, brackets@, rs, ch, skip as nat, (k + 1) as nat, rs.len());
        }
        let raw = match ch {
            Some(c) => find_nth_pairs_pos(text, c, range, skip, brackets, None),
            None => find_nth_closest_pairs_pos(text, range, skip, brackets),
        };
        let raw = match raw {
            Ok(p) => p,
            Err(e) => {
                proof {
                    lemma_surround_err_stays(t, brackets@, rs, ch, skip as nat, (k + 1) as nat, rs.len());
                }
                return Err(e);
            },
        };
        let pair = Range::new(raw.0, raw.1);
        let open_pos = pair.from();
        let close_pos = pair.to();
        if holds_position(&change_pos, open_pos) || holds_position(&change_pos, close_pos) {
            proof {
                lemma_surround_err_stays(t, brackets@, rs, ch, skip as nat, (k + 1) as nat, rs.len());
            }
            return Err(Error::CursorOverlap);
        }
        let ghost before = change_pos@;
        change_pos.push(open_pos);
        change_pos.push(close_pos);
        assert(as_ints(change_pos@) =~= as_ints(before) + seq![open_pos as int, close_pos as int]);
        k = k + 1;
    }
    Ok(change_pos)
}

} // verus!
