//! The text model: what the library reads of a `ropey::RopeSlice`.
//!
//! A slice is viewed as the sequence of its Unicode scalar values. Lines are
//! separated by line feeds only (a carriage return before a line feed is part
//! of the line it ends), which is how `ropey` counts lines when it is built
//! without its `cr_lines` and `unicode_lines` features.

use ropey::RopeSlice;
use vstd::prelude::*;

verus! {

#[verifier::external_type_specification]
#[verifier::external_body]
pub struct ExRopeSlice<'a>(RopeSlice<'a>);

/// The scalar values held by a rope slice, in order.
pub uninterp spec fn rope_text(s: RopeSlice) -> Seq<char>;

/// Number of bytes of the UTF-8 encoding of `c`.
pub open spec fn char_utf8_len(c: char) -> nat {
    if (c as u32) < 0x80 {
        1
    } else if (c as u32) < 0x800 {
        2
    } else if (c as u32) < 0x10000 {
        3
    } else {
        4
    }
}

/// Number of bytes of the UTF-8 encoding of `s`.
pub open spec fn utf8_len(s: Seq<char>) -> nat
    decreases s.len(),
{
    if s.len() == 0 {
        0
    } else {
        utf8_len(s.drop_last()) + char_utf8_len(s.last())
    }
}

/// Number of line feeds in `s`.
pub open spec fn count_lf(s: Seq<char>) -> nat
    decreases s.len(),
{
    if s.len() == 0 {
        0
    } else {
        count_lf(s.drop_last()) + if s.last() == '\n' {
            1nat
        } else {
            0nat
        }
    }
}

/// Number of lines of `t`: one more than its line feeds.
pub open spec fn line_count(t: Seq<char>) -> nat {
    count_lf(t) + 1
}

/// Index of the line that holds the edge `i`: the line feeds before it.
pub open spec fn line_of(t: Seq<char>, i: int) -> nat {
    count_lf(t.take(i))
}

/// `p` is the first edge of line `l`.
pub open spec fn is_line_start(t: Seq<char>, l: int, p: int) -> bool {
    &&& 0 <= p <= t.len()
    &&& count_lf(t.take(p)) == l
    &&& (p == 0 || t[p - 1] == '\n')
}

/// The first edge of line `l`; the end of the text for one past the last line.
pub open spec fn line_start(t: Seq<char>, l: int) -> int {
    if 0 <= l < line_count(t) {
        choose|p: int| is_line_start(t, l, p)
    } else {
        t.len() as int
    }
}

proof fn lemma_count_lf_take_step(t: Seq<char>, i: int)
    requires
        0 < i <= t.len(),
    ensures
        count_lf(t.take(i)) == count_lf(t.take(i - 1)) + if t[i - 1] == '\n' {
            1nat
        } else {
            0nat
        },
{
    assert(t.take(i).drop_last() =~= t.take(i - 1));
}

/// Line feeds before an edge never decrease as the edge moves right.
pub proof fn lemma_count_lf_take_mono(t: Seq<char>, i: int, j: int)
    requires
        0 <= i <= j <= t.len(),
    ensures
        count_lf(t.take(i)) <= count_lf(t.take(j)),
    decreases j - i,
{
    if i < j {
        lemma_count_lf_take_step(t, j);
        lemma_count_lf_take_mono(t, i, j - 1);
    }
}

/// A text has no more line feeds than chars.
pub proof fn lemma_count_lf_le_len(s: Seq<char>)
    ensures
        count_lf(s) <= s.len(),
    decreases s.len(),
{
    if s.len() > 0 {
        lemma_count_lf_le_len(s.drop_last());
    }
}

/// Every edge of the text lies on one of its lines.
pub proof fn lemma_line_of_bound(t: Seq<char>, i: int)
    requires
        0 <= i <= t.len(),
    ensures
        line_of(t, i) < line_count(t),
{
    lemma_count_lf_take_mono(t, i, t.len() as int);
    assert(t.take(t.len() as int) =~= t);
}

/// A line has exactly one first edge.
pub proof fn lemma_line_start_unique(t: Seq<char>, l: int, p: int, q: int)
    requires
        is_line_start(t, l, p),
        is_line_start(t, l, q),
    ensures
        p == q,
{
    if p < q {
        lemma_count_lf_take_step(t, q);
        lemma_count_lf_take_mono(t, p, q - 1);
    } else if q < p {
        lemma_count_lf_take_step(t, p);
        lemma_count_lf_take_mono(t, q, p - 1);
    }
}

/// A first edge of line `l` is `line_start(t, l)`.
pub proof fn lemma_line_start(t: Seq<char>, l: int, p: int)
    requires
        is_line_start(t, l, p),
    ensures
        0 <= l < line_count(t),
        line_start(t, l) == p,
{
    lemma_line_of_bound(t, p);
    lemma_line_start_unique(t, l, p, choose|q: int| is_line_start(t, l, q));
}

/// The first edges of consecutive lines are ordered.
pub proof fn lemma_line_starts_ordered(t: Seq<char>, l: int, p: int, q: int)
    requires
        is_line_start(t, l, p),
        is_line_start(t, l + 1, q),
    ensures
        p < q,
{
    if q <= p {
        lemma_count_lf_take_mono(t, q, p);
    }
}

/// Every line of a text has a first edge.
pub proof fn lemma_line_start_exists(t: Seq<char>, l: int)
    requires
        0 <= l < line_count(t),
    ensures
        is_line_start(t, l, line_start(t, l)),
    decreases t.len(),
{
    if l == 0 {
        assert(t.take(0) =~= Seq::<char>::empty());
        assert(is_line_start(t, 0, 0));
    } else {
        let u = t.drop_last();
        assert(t.take(t.len() as int) =~= t);
        lemma_count_lf_take_step(t, t.len() as int);
        assert(t.take(t.len() - 1) =~= u);
        if l < line_count(u) {
            lemma_line_start_exists(u, l);
            let p = line_start(u, l);
            assert(t.take(p) =~= u.take(p));
            assert(is_line_start(t, l, p));
        } else {
            assert(is_line_start(t, l, t.len() as int));
        }
    }
}

/// `c` is the char whose encoding holds byte `b`, or EOF when `b` is the byte length.
pub open spec fn is_char_of_byte(t: Seq<char>, b: int, c: int) -> bool {
    &&& 0 <= c <= t.len()
    &&& utf8_len(t.take(c)) <= b
    &&& (c < t.len() ==> b < utf8_len(t.take(c + 1)))
}

/// Number of chars in the slice (`RopeSlice::len_chars`).
#[verifier::external_body]
pub(crate) fn rope_len_chars(s: RopeSlice) -> (r: usize)
    ensures
        r == rope_text(s).len(),
{
    s.len_chars()
}

/// Number of bytes in the slice (`RopeSlice::len_bytes`): the UTF-8 length of its text.
#[verifier::external_body]
pub(crate) fn rope_len_bytes(s: RopeSlice) -> (r: usize)
    ensures
        r == utf8_len(rope_text(s)),
{
    s.len_bytes()
}

/// `RopeSlice::get_char`: the char at `i`, or `None` at or past EOF.
#[verifier::external_body]
pub(crate) fn rope_get_char(s: RopeSlice, i: usize) -> (r: Option<char>)
    ensures
        i < rope_text(s).len() ==> r == Some(rope_text(s)[i as int]),
        i >= rope_text(s).len() ==> r is None,
{
    s.get_char(i)
}

/// `RopeSlice::char_to_byte`: the byte offset of the edge `i`.
#[verifier::external_body]
pub(crate) fn rope_char_to_byte(s: RopeSlice, i: usize) -> (r: usize)
    requires
        i <= rope_text(s).len(),
    ensures
        r == utf8_len(rope_text(s).take(i as int)),
{
    s.char_to_byte(i)
}

/// `RopeSlice::byte_to_char`: the char that holds byte `b` (EOF for the byte length).
#[verifier::external_body]
pub(crate) fn rope_byte_to_char(s: RopeSlice, b: usize) -> (r: usize)
    requires
        b <= utf8_len(rope_text(s)),
    ensures
        is_char_of_byte(rope_text(s), b as int, r as int),
{
    s.byte_to_char(b)
}

/// `RopeSlice::char_to_line`: the number of line feeds before the edge `i`.
#[verifier::external_body]
pub(crate) fn rope_char_to_line(s: RopeSlice, i: usize) -> (r: usize)
    requires
        i <= rope_text(s).len(),
    ensures
        r == line_of(rope_text(s), i as int),
{
    s.char_to_line(i)
}

/// `RopeSlice::len_lines`: one more than the number of line feeds.
#[verifier::external_body]
pub(crate) fn rope_len_lines(s: RopeSlice) -> (r: usize)
    ensures
        r == line_count(rope_text(s)),
{
    s.len_lines()
}

/// `RopeSlice::line_to_char`: the first edge of line `l`, or EOF for one past the last line.
#[verifier::external_body]
pub(crate) fn rope_line_to_char(s: RopeSlice, l: usize) -> (r: usize)
    requires
        l <= line_count(rope_text(s)),
    ensures
        l < line_count(rope_text(s)) ==> is_line_start(rope_text(s), l as int, r as int),
        l == line_count(rope_text(s)) ==> r == rope_text(s).len(),
{
    s.line_to_char(l)
}

/// `RopeSlice::slice` over the char range `from..to`.
#[verifier::external_body]
pub(crate) fn rope_slice<'a>(s: RopeSlice<'a>, from: usize, to: usize) -> (r: RopeSlice<'a>)
    requires
        from <= to <= rope_text(s).len(),
    ensures
        rope_text(r) == rope_text(s).subrange(from as int, to as int),
{
    s.slice(from..to)
}

/// The text of the slice as a `String` (`From<RopeSlice> for String`).
#[verifier::external_body]
pub(crate) fn rope_to_string(s: RopeSlice) -> (r: String)
    ensures
        r@ == rope_text(s),
{
    String::from(s)
}

} // verus!
