//! Extended grapheme cluster edges of a rope slice.
//!
//! Where the clusters of a text begin is decided by `unicode-segmentation`;
//! the library walks those edges with verified loops.

use crate::text::{rope_char_to_byte, rope_len_bytes, rope_len_chars, rope_text, rope_to_string, utf8_len};
use ropey::RopeSlice;
use unicode_segmentation::GraphemeCursor;
use vstd::prelude::*;

verus! {

/// Whether `unicode-segmentation` finds an extended grapheme cluster boundary
/// at byte offset `byte_offset` of the text `text`.
pub uninterp spec fn grapheme_break(text: Seq<char>, byte_offset: nat) -> bool;

/// `b` is the byte offset of some edge of `t`.
pub open spec fn is_char_byte_offset(t: Seq<char>, b: int) -> bool {
    exists|k: int| 0 <= k <= t.len() && #[trigger] utf8_len(t.take(k)) == b
}

/// The edge `i` of `t` is an extended grapheme cluster edge. The start and
/// the end of the text always are.
pub open spec fn is_grapheme_edge(t: Seq<char>, i: int) -> bool {
    &&& 0 <= i <= t.len()
    &&& (i == 0 || i == t.len() || grapheme_break(t, utf8_len(t.take(i))))
}

/// The edge `i` falls between a carriage return and the line feed after it.
pub open spec fn splits_crlf(t: Seq<char>, i: int) -> bool {
    0 < i < t.len() && t[i - 1] == '\r' && t[i] == '\n'
}

/// The last grapheme edge strictly before `i`, or 0 when there is none.
pub open spec fn prev_edge(t: Seq<char>, i: int) -> int
    decreases i,
{
    if i <= 0 {
        0
    } else if is_grapheme_edge(t, i - 1) {
        i - 1
    } else {
        prev_edge(t, i - 1)
    }
}

/// The first grapheme edge strictly after `i`, or EOF when there is none.
pub open spec fn next_edge(t: Seq<char>, i: int) -> int
    decreases t.len() - i,
{
    if i >= t.len() {
        t.len() as int
    } else if is_grapheme_edge(t, i + 1) {
        i + 1
    } else {
        next_edge(t, i + 1)
    }
}

/// `n` steps of `prev_edge` from `i`.
pub open spec fn nth_prev_edge(t: Seq<char>, i: int, n: nat) -> int
    decreases n,
{
    if n == 0 {
        i
    } else {
        nth_prev_edge(t, prev_edge(t, i), (n - 1) as nat)
    }
}

/// `n` steps of `next_edge` from `i`.
pub open spec fn nth_next_edge(t: Seq<char>, i: int, n: nat) -> int
    decreases n,
{
    if n == 0 {
        i
    } else {
        nth_next_edge(t, next_edge(t, i), (n - 1) as nat)
    }
}

/// `i` itself when it is a grapheme edge, otherwise the edge before it.
pub open spec fn edge_at_or_before(t: Seq<char>, i: int) -> int {
    if is_grapheme_edge(t, i) {
        i
    } else {
        prev_edge(t, i)
    }
}

/// `i` itself when it is a grapheme edge, otherwise the edge after it.
pub open spec fn edge_at_or_after(t: Seq<char>, i: int) -> int {
    if is_grapheme_edge(t, i) {
        i
    } else {
        next_edge(t, i)
    }
}

/// The edge before `i` is the nearest grapheme edge strictly before it (the
/// start of the text stays where it is).
pub proof fn lemma_prev_edge(t: Seq<char>, i: int)
    requires
        0 <= i <= t.len(),
    ensures
        is_grapheme_edge(t, prev_edge(t, i)),
        0 < i ==> prev_edge(t, i) < i,
        i == 0 ==> prev_edge(t, i) == 0,
        forall|k: int| prev_edge(t, i) < k < i ==> !is_grapheme_edge(t, k),
    decreases i,
{
    if i > 0 && !is_grapheme_edge(t, i - 1) {
        lemma_prev_edge(t, i - 1);
    }
}

/// The edge after `i` is the nearest grapheme edge strictly after it (the end
/// of the text stays where it is).
pub proof fn lemma_next_edge(t: Seq<char>, i: int)
    requires
        0 <= i <= t.len(),
    ensures
        is_grapheme_edge(t, next_edge(t, i)),
        i < t.len() ==> i < next_edge(t, i),
        i == t.len() ==> next_edge(t, i) == i,
        forall|k: int| i < k < next_edge(t, i) ==> !is_grapheme_edge(t, k),
    decreases t.len() - i,
{
    if i < t.len() && !is_grapheme_edge(t, i + 1) {
        lemma_next_edge(t, i + 1);
    }
}

/// Stepping back over `n` graphemes stays within the text, and lands on a
/// grapheme edge unless no step is taken.
pub proof fn lemma_nth_prev_edge(t: Seq<char>, i: int, n: nat)
    requires
        0 <= i <= t.len(),
    ensures
        0 <= nth_prev_edge(t, i, n) <= i,
        n > 0 ==> is_grapheme_edge(t, nth_prev_edge(t, i, n)),
    decreases n,
{
    if n > 0 {
        lemma_prev_edge(t, i);
        lemma_nth_prev_edge(t, prev_edge(t, i), (n - 1) as nat);
    }
}

/// Stepping forward over `n` graphemes stays within the text, and lands on a
/// grapheme edge unless no step is taken.
pub proof fn lemma_nth_next_edge(t: Seq<char>, i: int, n: nat)
    requires
        0 <= i <= t.len(),
    ensures
        i <= nth_next_edge(t, i, n) <= t.len(),
        n > 0 ==> is_grapheme_edge(t, nth_next_edge(t, i, n)),
    decreases n,
{
    if n > 0 {
        lemma_next_edge(t, i);
        lemma_nth_next_edge(t, next_edge(t, i), (n - 1) as nat);
    }
}

/// `GraphemeCursor::is_boundary` over the whole of `text`, asked at byte `byte_offset`.
/// Whether a boundary is found is left to the name `grapheme_break`; the start and
/// the end of the text are boundaries (rule GB1/GB2 of UAX #29, which the cursor
/// answers without reading the text), and the offset between a carriage return
/// and a line feed is none (rule GB3, the first pair rule the cursor checks).
#[verifier::external_body]
fn str_grapheme_break(text: &str, len_bytes: usize, byte_offset: usize) -> (r: bool)
    requires
        len_bytes == utf8_len(text@),
        is_char_byte_offset(text@, byte_offset as int),
    ensures
        r == grapheme_break(text@, byte_offset as nat),
        byte_offset == 0 || byte_offset == len_bytes ==> r,
        (exists|k: int| splits_crlf(text@, k) && #[trigger] utf8_len(text@.take(k)) == byte_offset)
            ==> !r,
{
    match GraphemeCursor::new(byte_offset, len_bytes, true).is_boundary(text, 0) {
        Ok(b) => b,
        Err(_) => false,
    }
}

/// A rope slice together with its text, ready for grapheme edge queries.
pub(crate) struct GraphemeText<'a> {
    pub(crate) slice: RopeSlice<'a>,
    pub(crate) text: String,
    pub(crate) len_chars: usize,
    pub(crate) len_bytes: usize,
}

impl<'a> GraphemeText<'a> {
    pub(crate) open spec fn wf(&self) -> bool {
        &&& self.text@ == rope_text(self.slice)
        &&& self.len_chars == self.text@.len()
        &&& self.len_bytes == utf8_len(self.text@)
    }

    pub(crate) fn new(slice: RopeSlice<'a>) -> (r: Self)
        ensures
            r.wf(),
            r.slice == slice,
    {
        let text = rope_to_string(slice);
        let len_chars = rope_len_chars(slice);
        let len_bytes = rope_len_bytes(slice);
        GraphemeText { slice, text, len_chars, len_bytes }
    }

    pub(crate) fn is_edge(&self, i: usize) -> (r: bool)
        requires
            self.wf(),
            i <= self.len_chars,
        ensures
            r == is_grapheme_edge(self.text@, i as int),
            splits_crlf(self.text@, i as int) ==> !r,
    {
        if i == 0 || i == self.len_chars {
            return true;
        }
        let b = rope_char_to_byte(self.slice, i);
        assert(is_char_byte_offset(self.text@, b as int)) by {
            assert(utf8_len(self.text@.take(i as int)) == b);
        }
        assert(splits_crlf(self.text@, i as int) ==> splits_crlf(self.text@, i as int) && utf8_len(
            self.text@.take(i as int),
        ) == b);
        str_grapheme_break(self.text.as_str(), self.len_bytes, b)
    }

    pub(crate) fn prev(&self, i: usize) -> (r: usize)
        requires
            self.wf(),
            i <= self.len_chars,
        ensures
            r == prev_edge(self.text@, i as int),
            !splits_crlf(self.text@, r as int),
    {
        let ghost t = self.text@;
        if i == 0 {
            return 0;
        }
        let mut k = i - 1;
        while k > 0 && !self.is_edge(k)
            invariant
                self.wf(),
                t == self.text@,
                0 <= k < i <= self.len_chars,
                prev_edge(t, i as int) == prev_edge(t, k + 1),
            decreases k,
        {
            k = k - 1;
        }
        k
    }

    pub(crate) fn next(&self, i: usize) -> (r: usize)
        requires
            self.wf(),
            i <= self.len_chars,
        ensures
            r == next_edge(self.text@, i as int),
            !splits_crlf(self.text@, r as int),
    {
        let ghost t = self.text@;
        if i >= self.len_chars {
            return self.len_chars;
        }
        let mut k = i + 1;
        while k < self.len_chars && !self.is_edge(k)
            invariant
                self.wf(),
                t == self.text@,
                i < k <= self.len_chars,
                next_edge(t, i as int) == next_edge(t, k - 1),
            decreases self.len_chars - k,
        {
            k = k + 1;
        }
        k
    }
}

/// The grapheme edge before `char_idx`, or 0 at the start of the text.
pub fn prev_grapheme_boundary(slice: RopeSlice, char_idx: usize) -> (r: usize)
    requires
        char_idx <= rope_text(slice).len(),
    ensures
        r == prev_edge(rope_text(slice), char_idx as int),
        !splits_crlf(rope_text(slice), r as int),
{
    let g = GraphemeText::new(slice);
    g.prev(char_idx)
}

/// The grapheme edge after `char_idx`, or EOF at the end of the text.
pub fn next_grapheme_boundary(slice: RopeSlice, char_idx: usize) -> (r: usize)
    requires
        char_idx <= rope_text(slice).len(),
    ensures
        r == next_edge(rope_text(slice), char_idx as int),
        !splits_crlf(rope_text(slice), r as int),
{
    let g = GraphemeText::new(slice);
    g.next(char_idx)
}

/// Steps back over `n` graphemes from `char_idx`, stopping at the start of the text.
pub fn nth_prev_grapheme_boundary(slice: RopeSlice, char_idx: usize, n: usize) -> (r: usize)
    requires
        char_idx <= rope_text(slice).len(),
    ensures
        r == nth_prev_edge(rope_text(slice), char_idx as int, n as nat),
{
    let g = GraphemeText::new(slice);
    let ghost t = g.text@;
    let mut pos = char_idx;
    let mut k: usize = 0;
    while k < n
        invariant
            g.wf(),
            t == rope_text(slice),
            t == g.text@,
            k <= n,
            pos <= char_idx <= g.len_chars,
            nth_prev_edge(t, char_idx as int, n as nat) == nth_prev_edge(t, pos as int, (n - k) as nat),
        decreases n - k,
    {
        if pos == 0 {
            proof {
                lemma_nth_prev_at_start(t, (n - k) as nat);
            }
            return 0;
        }
        proof {
            lemma_prev_edge(t, pos as int);
        }
        pos = g.prev(pos);
        k = k + 1;
    }
    pos
}

proof fn lemma_nth_prev_at_start(t: Seq<char>, n: nat)
    ensures
        nth_prev_edge(t, 0, n) == 0,
    decreases n,
{
    if n > 0 {
        lemma_nth_prev_at_start(t, (n - 1) as nat);
    }
}

proof fn lemma_nth_next_at_end(t: Seq<char>, n: nat)
    ensures
        nth_next_edge(t, t.len() as int, n) == t.len(),
    decreases n,
{
    if n > 0 {
        lemma_nth_next_at_end(t, (n - 1) as nat);
    }
}

/// Steps forward over `n` graphemes from `char_idx`, stopping at the end of the text.
pub fn nth_next_grapheme_boundary(slice: RopeSlice, char_idx: usize, n: usize) -> (r: usize)
    requires
        char_idx <= rope_text(slice).len(),
    ensures
        r == nth_next_edge(rope_text(slice), char_idx as int, n as nat),
{
    let g = GraphemeText::new(slice);
    let ghost t = g.text@;
    let mut pos = char_idx;
    let mut k: usize = 0;
    while k < n
        invariant
            g.wf(),
            t == rope_text(slice),
            t == g.text@,
            k <= n,
            char_idx <= pos <= g.len_chars,
            nth_next_edge(t, char_idx as int, n as nat) == nth_next_edge(t, pos as int, (n - k) as nat),
        decreases n - k,
    {
        if pos == g.len_chars {
            proof {
                lemma_nth_next_at_end(t, (n - k) as nat);
            }
            return pos;
        }
        proof {
            lemma_next_edge(t, pos as int);
        }
        pos = g.next(pos);
        k = k + 1;
    }
    pos
}

/// `char_idx` if it is a grapheme edge, otherwise the edge before it.
pub fn ensure_grapheme_boundary_prev(slice: RopeSlice, char_idx: usize) -> (r: usize)
    requires
        char_idx <= rope_text(slice).len(),
    ensures
        r == edge_at_or_before(rope_text(slice), char_idx as int),
{
    let g = GraphemeText::new(slice);
    if g.is_edge(char_idx) {
        char_idx
    } else {
        g.prev(char_idx)
    }
}

/// `char_idx` if it is a grapheme edge, otherwise the edge after it.
pub fn ensure_grapheme_boundary_next(slice: RopeSlice, char_idx: usize) -> (r: usize)
    requires
        char_idx <= rope_text(slice).len(),
    ensures
        r == edge_at_or_after(rope_text(slice), char_idx as int),
{
    let g = GraphemeText::new(slice);
    if g.is_edge(char_idx) {
        char_idx
    } else {
        g.next(char_idx)
    }
}

} // verus!
