//! Finding the `n`th occurrence of a char before or after an edge.

use crate::movement::{char_at, Direction};
use crate::text::{rope_len_chars, rope_text};
use ropey::RopeSlice;
use vstd::prelude::*;

verus! {

/// The first index at or after `i` holding `d`.
pub open spec fn first_at_or_after(t: Seq<char>, d: char, i: int) -> Option<int>
    decreases t.len() - i,
{
    if i >= t.len() || i < 0 {
        None
    } else if t[i] == d {
        Some(i)
    } else {
        first_at_or_after(t, d, i + 1)
    }
}

/// The last index before `i` holding `d`.
pub open spec fn last_before(t: Seq<char>, d: char, i: int) -> Option<int>
    decreases i,
{
    if i <= 0 {
        None
    } else if t[i - 1] == d {
        Some(i - 1)
    } else {
        last_before(t, d, i - 1)
    }
}

pub proof fn lemma_first_at_or_after(t: Seq<char>, d: char, i: int)
    requires
        0 <= i,
    ensures
        first_at_or_after(t, d, i) matches Some(j) ==> i <= j < t.len() && t[j] == d,
    decreases t.len() - i,
{
    if i < t.len() && t[i] != d {
        lemma_first_at_or_after(t, d, i + 1);
    }
}

pub proof fn lemma_last_before(t: Seq<char>, d: char, i: int)
    ensures
        last_before(t, d, i) matches Some(j) ==> 0 <= j < i && t[j] == d,
    decreases i,
{
    if i > 0 && t[i - 1] != d {
        lemma_last_before(t, d, i - 1);
    }
}

/// The `n`th index holding `ch` at or after `i` (`n >= 1`).
pub open spec fn nth_next_from(t: Seq<char>, ch: char, i: int, n: nat) -> Option<int>
    decreases n,
{
    match first_at_or_after(t, ch, i) {
        None => None,
        Some(j) => if n <= 1 {
            Some(j)
        } else {
            nth_next_from(t, ch, j + 1, (n - 1) as nat)
        },
    }
}

/// The `n`th index holding `ch` before `i` (`n >= 1`), counting backward.
pub open spec fn nth_prev_from(t: Seq<char>, ch: char, i: int, n: nat) -> Option<int>
    decreases n,
{
    match last_before(t, ch, i) {
        None => None,
        Some(j) => if n <= 1 {
            Some(j)
        } else {
            nth_prev_from(t, ch, j, (n - 1) as nat)
        },
    }
}

/// The `n`th occurrence of `ch` counting forward from the char at `pos`; none
/// from EOF or for a zero `n`.
pub open spec fn spec_find_nth_next(t: Seq<char>, ch: char, pos: int, n: nat) -> Option<int> {
    if pos >= t.len() || n == 0 {
        None
    } else {
        nth_next_from(t, ch, pos, n)
    }
}

/// The `n`th occurrence of `ch` counting backward from the char before `pos`;
/// none from the start of the text or for a zero `n`.
pub open spec fn spec_find_nth_prev(t: Seq<char>, ch: char, pos: int, n: nat) -> Option<int> {
    if pos <= 0 || n == 0 {
        None
    } else {
        nth_prev_from(t, ch, pos, n)
    }
}

proof fn lemma_nth_next_from(t: Seq<char>, ch: char, i: int, n: nat)
    requires
        0 <= i,
    ensures
        nth_next_from(t, ch, i, n) matches Some(j) ==> i <= j < t.len() && t[j] == ch,
    decreases n,
{
    lemma_first_at_or_after(t, ch, i);
    if let Some(j) = first_at_or_after(t, ch, i) {
        if n > 1 {
            lemma_nth_next_from(t, ch, j + 1, (n - 1) as nat);
        }
    }
}

proof fn lemma_nth_prev_from(t: Seq<char>, ch: char, i: int, n: nat)
    ensures
        nth_prev_from(t, ch, i, n) matches Some(j) ==> 0 <= j < i && t[j] == ch,
    decreases n,
{
    lemma_last_before(t, ch, i);
    if let Some(j) = last_before(t, ch, i) {
        if n > 1 {
            lemma_nth_prev_from(t, ch, j, (n - 1) as nat);
        }
    }
}

/// The `n`th occurrence of `ch` from the char at `pos` on.
pub fn find_nth_next(text: RopeSlice, ch: char, pos: usize, n: usize) -> (r: Option<usize>)
    ensures
        match r {
            Some(j) => spec_find_nth_next(rope_text(text), ch, pos as int, n as nat) == Some(j as int),
            None => spec_find_nth_next(rope_text(text), ch, pos as int, n as nat) is None,
        },
        r matches Some(j) ==> pos <= j < rope_text(text).len() && rope_text(text)[j as int] == ch,
{
    let ghost t = rope_text(text);
    let len = rope_len_chars(text);
    if pos >= len || n == 0 {
        return None;
    }
    proof {
        lemma_nth_next_from(t, ch, pos as int, n as nat);
    }
    let ghost target = spec_find_nth_next(t, ch, pos as int, n as nat);
    let mut p = pos;
    let mut k = n;
    loop
        invariant
            t == rope_text(text),
            len == t.len(),
            pos <= p <= len,
            1 <= k <= n,
            nth_next_from(t, ch, p as int, k as nat) == target,
            target == spec_find_nth_next(t, ch, pos as int, n as nat),
            target matches Some(j) ==> pos <= j < len && t[j] == ch,
        decreases k,
    {
        let mut j = p;
        while j < len && char_at(text, j) != ch
            invariant
                t == rope_text(text),
                len == t.len(),
                p <= j <= len,
                first_at_or_after(t, ch, j as int) == first_at_or_after(t, ch, p as int),
            decreases len - j,
        {
            j = j + 1;
        }
        if j == len {
            return None;
        }
        if k == 1 {
            return Some(j);
        }
        k = k - 1;
        p = j + 1;
    }
}

/// The `n`th occurrence of `ch` counting back from the char before `pos`.
pub fn find_nth_prev(text: RopeSlice, ch: char, pos: usize, n: usize) -> (r: Option<usize>)
    requires
        pos <= rope_text(text).len(),
    ensures
        match r {
            Some(j) => spec_find_nth_prev(rope_text(text), ch, pos as int, n as nat) == Some(j as int),
            None => spec_find_nth_prev(rope_text(text), ch, pos as int, n as nat) is None,
        },
        r matches Some(j) ==> j < pos && rope_text(text)[j as int] == ch,
{
    let ghost t = rope_text(text);
    if pos == 0 || n == 0 {
        return None;
    }
    proof {
        lemma_nth_prev_from(t, ch, pos as int, n as nat);
    }
    let ghost target = spec_find_nth_prev(t, ch, pos as int, n as nat);
    let mut p = pos;
    let mut k = n;
    loop
        invariant
            t == rope_text(text),
            p <= pos <= t.len(),
            1 <= k <= n,
            nth_prev_from(t, ch, p as int, k as nat) == target,
            target == spec_find_nth_prev(t, ch, pos as int, n as nat),
            target matches Some(j) ==> 0 <= j < pos && t[j] == ch,
        decreases k,
    {
        let mut j = p;
        while j > 0 && char_at(text, j - 1) != ch
            invariant
                t == rope_text(text),
                j <= p <= t.len(),
                last_before(t, ch, j as int) == last_before(t, ch, p as int),
            decreases j,
        {
            j = j - 1;
        }
        if j == 0 {
            return None;
        }
        if k == 1 {
            return Some(j - 1);
        }
        k = k - 1;
        p = j - 1;
    }
}

/// The `n`th occurrence of `ch` from `pos` in `direction`.
pub fn find_nth_char(n: usize, text: RopeSlice, ch: char, pos: usize, direction: Direction) -> (r:
    Option<usize>)
    requires
        pos <= rope_text(text).len(),
    ensures
        direction == Direction::Forward ==> (match r {
            Some(j) => spec_find_nth_next(rope_text(text), ch, pos as int, n as nat) == Some(j as int),
            None => spec_find_nth_next(rope_text(text), ch, pos as int, n as nat) is None,
        }),
        direction == Direction::Backward ==> (match r {
            Some(j) => spec_find_nth_prev(rope_text(text), ch, pos as int, n as nat) == Some(j as int),
            None => spec_find_nth_prev(rope_text(text), ch, pos as int, n as nat) is None,
        }),
{
    match direction {
        Direction::Forward => find_nth_next(text, ch, pos, n),
        Direction::Backward => find_nth_prev(text, ch, pos, n),
    }
}

} // verus!
