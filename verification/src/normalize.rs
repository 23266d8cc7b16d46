//! Collision normalization of a list of ranges.
//!
//! The ranges are ordered by their lower edge (widest first on ties, forward
//! before backward), then every run of overlapping ranges is merged into its
//! union. A union that holds the primary range takes the primary's direction;
//! any other union takes the direction of its first range in that order.

use crate::movement::Direction;
use crate::selection::{
    mk_range, spec_direction, spec_from, spec_overlaps, spec_to, spec_with_direction, Range,
};
use vstd::prelude::*;
use vstd::relations::{sorted_by, total_ordering};
use vstd::seq_lib::{
    group_to_multiset_ensures, lemma_sorted_unique, to_multiset_len, to_multiset_update,
};

verus! {

/// Order of the optional visual positions, used only to make the order of
/// ranges total.
pub open spec fn visual_leq(a: Option<(u32, u32)>, b: Option<(u32, u32)>) -> bool {
    match (a, b) {
        (None, _) => true,
        (Some(_), None) => false,
        (Some((x, y)), Some((u, v))) => x < u || (x == u && y <= v),
    }
}

/// The order in which normalization visits ranges tagged with "is primary":
/// by lower edge, then wider first, then forward before backward. The remaining
/// keys only break ties between ranges that are merged anyway.
pub open spec fn tagged_leq(x: (Range, bool), y: (Range, bool)) -> bool {
    let (a, b) = (x.0, y.0);
    if spec_from(a) != spec_from(b) {
        spec_from(a) < spec_from(b)
    } else if spec_to(a) != spec_to(b) {
        spec_to(a) > spec_to(b)
    } else if spec_direction(a) != spec_direction(b) {
        spec_direction(b) == Direction::Backward
    } else if x.1 != y.1 {
        y.1
    } else {
        visual_leq(a.old_visual_position, b.old_visual_position)
    }
}

pub open spec fn tagged_order() -> spec_fn((Range, bool), (Range, bool)) -> bool {
    |x: (Range, bool), y: (Range, bool)| tagged_leq(x, y)
}

/// The ranges of a selection, each tagged with whether it is the primary one.
pub open spec fn tag(ranges: Seq<Range>, primary: nat) -> Seq<(Range, bool)> {
    Seq::new(ranges.len(), |i: int| (ranges[i], i == primary))
}

/// A group being merged: lower edge, upper edge, direction, holds the primary.
pub type Group = (usize, usize, Direction, bool);

/// Merge state: finished unions, index of the union that holds the primary,
/// and the group being merged.
pub type MergeState = (Seq<Range>, Option<nat>, Option<Group>);

/// The union of a finished group.
pub open spec fn group_range(g: Group) -> Range {
    spec_with_direction(mk_range(g.0, g.1), g.2)
}

/// A new group made of one range.
pub open spec fn start_group(x: (Range, bool)) -> Group {
    (spec_from(x.0), spec_to(x.0), spec_direction(x.0), x.1)
}

/// Visits one more range in order: it joins the current group when it overlaps
/// the union so far, otherwise it closes that group and starts a new one.
pub open spec fn merge_step(st: MergeState, x: (Range, bool)) -> MergeState {
    let (done, primary, cur) = st;
    match cur {
        None => (done, primary, Some(start_group(x))),
        Some(g) => if spec_overlaps(mk_range(g.0, g.1), x.0) {
            (
                done,
                primary,
                Some(
                    (
                        if spec_from(x.0) < g.0 {
                            spec_from(x.0)
                        } else {
                            g.0
                        },
                        if spec_to(x.0) > g.1 {
                            spec_to(x.0)
                        } else {
                            g.1
                        },
                        if x.1 {
                            spec_direction(x.0)
                        } else {
                            g.2
                        },
                        g.3 || x.1,
                    ),
                ),
            )
        } else {
            (
                done.push(group_range(g)),
                if g.3 {
                    Some(done.len())
                } else {
                    primary
                },
                Some(start_group(x)),
            )
        },
    }
}

/// The merge state after visiting all of `s`, in order.
pub open spec fn merge_prefix(s: Seq<(Range, bool)>) -> MergeState
    decreases s.len(),
{
    if s.len() == 0 {
        (Seq::empty(), None, None)
    } else {
        merge_step(merge_prefix(s.drop_last()), s.last())
    }
}

/// Closes the last group: the unions and the index of the primary union.
pub open spec fn merge_finish(st: MergeState) -> (Seq<Range>, nat) {
    let (done, primary, cur) = st;
    match cur {
        None => (done, primary.unwrap()),
        Some(g) => (
            done.push(group_range(g)),
            if g.3 {
                done.len()
            } else {
                primary.unwrap()
            },
        ),
    }
}

/// Collision normalization of `ranges` with primary `primary`: fewer than two ranges
/// are left as they are; otherwise the tagged ranges are visited in
/// `tagged_order` and overlapping runs are merged.
pub open spec fn spec_normalize(ranges: Seq<Range>, primary: nat) -> (Seq<Range>, nat) {
    if ranges.len() < 2 {
        (ranges, primary)
    } else {
        merge_finish(merge_prefix(tag(ranges, primary).sort_by(tagged_order())))
    }
}

/// The order in which normalization visits ranges is a total order.
pub proof fn lemma_tagged_order_total()
    ensures
        total_ordering(tagged_order()),
{
    let o = tagged_order();
    assert forall|x: (Range, bool), y: (Range, bool)| #[trigger] o(x, y) && #[trigger] o(y, x) implies x
        == y by {
        assert(x.0 == y.0);
    }
}

/// Executable form of `tagged_leq`.
fn tagged_le(x: &(Range, bool), y: &(Range, bool)) -> (r: bool)
    ensures
        r == tagged_leq(*x, *y),
{
    let (a, b) = (&x.0, &y.0);
    if a.from() != b.from() {
        a.from() < b.from()
    } else if a.to() != b.to() {
        a.to() > b.to()
    } else if a.direction() != b.direction() {
        b.direction() == Direction::Backward
    } else if x.1 != y.1 {
        y.1
    } else {
        match (a.old_visual_position, b.old_visual_position) {
            (None, _) => true,
            (Some(_), None) => false,
            (Some((p, q)), Some((u, v))) => p < u || (p == u && q <= v),
        }
    }
}

/// The sort key of a tagged range: lower edge, then upper edge reversed, then
/// direction (forward first), then the tag (untagged first), then the visual
/// position (none first).
pub type TaggedKey = (usize, usize, u8, u8, u8, u32, u32);

pub open spec fn spec_tagged_key(x: (Range, bool)) -> TaggedKey {
    let a = x.0;
    (
        spec_from(a),
        (usize::MAX - spec_to(a)) as usize,
        if spec_direction(a) == Direction::Backward {
            1u8
        } else {
            0u8
        },
        if x.1 {
            1u8
        } else {
            0u8
        },
        match a.old_visual_position {
            None => 0u8,
            Some(_) => 1u8,
        },
        match a.old_visual_position {
            None => 0u32,
            Some((p, _)) => p,
        },
        match a.old_visual_position {
            None => 0u32,
            Some((_, q)) => q,
        },
    )
}

/// Lexicographic order of keys, the order of tuples.
pub open spec fn key_le(k: TaggedKey, l: TaggedKey) -> bool {
    ||| k.0 < l.0
    ||| k.0 == l.0 && k.1 < l.1
    ||| k.0 == l.0 && k.1 == l.1 && k.2 < l.2
    ||| k.0 == l.0 && k.1 == l.1 && k.2 == l.2 && k.3 < l.3
    ||| k.0 == l.0 && k.1 == l.1 && k.2 == l.2 && k.3 == l.3 && k.4 < l.4
    ||| k.0 == l.0 && k.1 == l.1 && k.2 == l.2 && k.3 == l.3 && k.4 == l.4 && k.5 < l.5
    ||| k.0 == l.0 && k.1 == l.1 && k.2 == l.2 && k.3 == l.3 && k.4 == l.4 && k.5 == l.5 && k.6
        <= l.6
}

fn tagged_key(x: &(Range, bool)) -> (r: TaggedKey)
    ensures
        r == spec_tagged_key(*x),
{
    let a = &x.0;
    let dir: u8 = if a.direction() == Direction::Backward {
        1
    } else {
        0
    };
    let tagged: u8 = if x.1 {
        1
    } else {
        0
    };
    let (has_visual, p, q): (u8, u32, u32) = match a.old_visual_position {
        None => (0, 0, 0),
        Some((p, q)) => (1, p, q),
    };
    (a.from(), usize::MAX - a.to(), dir, tagged, has_visual, p, q)
}

/// `slice::sort_unstable_by_key` with `tagged_key`: the items are reordered so
/// that their keys ascend, tuples comparing lexicographically.
#[verifier::external_body]
fn sort_by_tagged_key(v: &mut Vec<(Range, bool)>)
    ensures
        final(v)@.to_multiset() == old(v)@.to_multiset(),
        final(v)@.len() == old(v)@.len(),
        forall|i: int, j: int|
            0 <= i < j < final(v)@.len() ==> key_le(
                spec_tagged_key(#[trigger] final(v)@[i]),
                spec_tagged_key(#[trigger] final(v)@[j]),
            ),
{
    v.sort_unstable_by_key(|x| tagged_key(x));
}

proof fn lemma_key_order(x: (Range, bool), y: (Range, bool))
    requires
        key_le(spec_tagged_key(x), spec_tagged_key(y)),
    ensures
        tagged_leq(x, y),
{
}

/// Sorts tagged ranges in `tagged_order`.
pub(crate) fn sort_tagged(input: &Vec<(Range, bool)>) -> (r: Vec<(Range, bool)>)
    ensures
        r@ == input@.sort_by(tagged_order()),
{
    broadcast use group_to_multiset_ensures;

    let mut res: Vec<(Range, bool)> = Vec::new();
    let n = input.len();
    let mut i: usize = 0;
    while i < n
        invariant
            n == input@.len(),
            i <= n,
            res@ == input@.take(i as int),
        decreases n - i,
    {
        res.push(input[i]);
        i = i + 1;
        assert(res@ == input@.take(i as int));
    }
    assert(res@ == input@);
    sort_by_tagged_key(&mut res);
    proof {
        let o = tagged_order();
        lemma_tagged_order_total();
        assert(sorted_by(res@, o)) by {
            assert forall|a: int, b: int| 0 <= a < b < res@.len() implies #[trigger] o(
                res@[a],
                res@[b],
            ) by {
                lemma_key_order(res@[a], res@[b]);
            }
        }
        input@.lemma_sort_by_ensures(o);
        lemma_sorted_unique(res@, input@.sort_by(o), o);
    }
    res
}


/// `Option<usize>` as the optional index of the spec.
pub open spec fn opt_nat(o: Option<usize>) -> Option<nat> {
    match o {
        None => None,
        Some(i) => Some(i as nat),
    }
}

proof fn lemma_merge_prefix_step(s: Seq<(Range, bool)>, i: int)
    requires
        0 <= i < s.len(),
    ensures
        merge_prefix(s.take(i + 1)) == merge_step(merge_prefix(s.take(i)), s[i]),
{
    assert(s.take(i + 1).drop_last() =~= s.take(i));
}

/// Visits `sorted` in order and merges overlapping runs; returns the merge state
/// before the last group is closed.
pub(crate) fn merge_sorted(sorted: &Vec<(Range, bool)>) -> (r: (
    Vec<Range>,
    Option<usize>,
    Option<Group>,
))
    ensures
        r.0@ == merge_prefix(sorted@).0,
        opt_nat(r.1) == merge_prefix(sorted@).1,
        r.2 == merge_prefix(sorted@).2,
{
    let mut done: Vec<Range> = Vec::new();
    let mut primary: Option<usize> = None;
    let mut cur: Option<Group> = None;
    let n = sorted.len();
    let mut i: usize = 0;
    while i < n
        invariant
            n == sorted@.len(),
            i <= n,
            done@ == merge_prefix(sorted@.take(i as int)).0,
            opt_nat(primary) == merge_prefix(sorted@.take(i as int)).1,
            cur == merge_prefix(sorted@.take(i as int)).2,
            done@.len() <= i,
        decreases n - i,
    {
        proof {
            lemma_merge_prefix_step(sorted@, i as int);
        }
        let x = sorted[i];
        let start = (x.0.from(), x.0.to(), x.0.direction(), x.1);
        match cur {
            None => {
                cur = Some(start);
            },
            Some(g) => {
                if Range::new(g.0, g.1).overlaps(&x.0) {
                    let f = if x.0.from() < g.0 {
                        x.0.from()
                    } else {
                        g.0
                    };
                    let t = if x.0.to() > g.1 {
                        x.0.to()
                    } else {
                        g.1
                    };
                    let d = if x.1 {
                        x.0.direction()
                    } else {
                        g.2
                    };
                    cur = Some((f, t, d, g.3 || x.1));
                } else {
                    if g.3 {
                        primary = Some(done.len());
                    }
                    done.push(Range::new(g.0, g.1).with_direction(g.2));
                    cur = Some(start);
                }
            },
        }
        i = i + 1;
    }
    proof {
        assert(sorted@.take(n as int) =~= sorted@);
    }
    (done, primary, cur)
}


/// Some range of `s` is tagged primary.
pub open spec fn has_primary(s: Seq<(Range, bool)>) -> bool {
    exists|j: int| 0 <= j < s.len() && (#[trigger] s[j]).1
}

/// The merge state records where the primary went: a finished union, or the
/// group being merged.
pub open spec fn primary_recorded(m: MergeState) -> bool {
    ||| m.1 is Some
    ||| (m.2 matches Some(g) && g.3)
}

/// Shape facts of a merge state: the recorded primary union exists, and there
/// is an open group as soon as one range was visited.
pub proof fn lemma_merge_prefix_shape(s: Seq<(Range, bool)>)
    ensures
        merge_prefix(s).1 matches Some(p) ==> p < merge_prefix(s).0.len(),
        s.len() > 0 ==> merge_prefix(s).2 is Some,
        has_primary(s) ==> primary_recorded(merge_prefix(s)),
        merge_prefix(s).0.len() <= s.len(),
        s.len() > 0 ==> merge_prefix(s).0.len() < s.len(),
    decreases s.len(),
{
    if s.len() > 0 {
        let t = s.drop_last();
        lemma_merge_prefix_shape(t);
        if has_primary(s) && !s.last().1 {
            let j = choose|j: int| 0 <= j < s.len() && (#[trigger] s[j]).1;
            assert(t[j].1);
        }
    }
}


/// The ranges of `s`, none of them tagged primary.
pub open spec fn untagged(s: Seq<Range>) -> Seq<(Range, bool)> {
    s.map_values(|r: Range| (r, false))
}

proof fn lemma_tag_is_update(s: Seq<Range>, p: nat)
    requires
        p < s.len(),
    ensures
        tag(s, p) == untagged(s).update(p as int, (s[p as int], true)),
{
    assert(tag(s, p) =~= untagged(s).update(p as int, (s[p as int], true)));
}

/// Tagging every range as secondary keeps equal multisets equal.
proof fn lemma_untagged_multiset(s1: Seq<Range>, s2: Seq<Range>)
    requires
        s1.to_multiset() == s2.to_multiset(),
    ensures
        untagged(s1).to_multiset() == untagged(s2).to_multiset(),
    decreases s1.len(),
{
    broadcast use group_to_multiset_ensures;
    broadcast use vstd::multiset::group_multiset_axioms;

    to_multiset_len(s1);
    to_multiset_len(s2);
    if s1.len() == 0 {
        assert(s2.len() == 0);
        assert(untagged(s1) =~= untagged(s2));
    } else {
        let x = s1.last();
        let t1 = s1.drop_last();
        assert(s1 =~= t1.push(x));
        assert(s1.contains(x)) by {
            assert(s1[s1.len() - 1] == x);
        }
        assert(s2.to_multiset().count(x) > 0);
        assert(s2.contains(x));
        let i = choose|i: int| 0 <= i < s2.len() && s2[i] == x;
        let t2 = s2.remove(i);
        assert(t1.to_multiset() =~= s1.to_multiset().remove(x));
        assert(t2.to_multiset() =~= s2.to_multiset().remove(x));
        lemma_untagged_multiset(t1, t2);
        assert(untagged(s1) =~= untagged(t1).push((x, false)));
        assert(untagged(t2) =~= untagged(s2).remove(i));
        assert(untagged(s2)[i] == (x, false));
        assert(untagged(s2).to_multiset().count((x, false)) > 0) by {
            assert(untagged(s2).contains((x, false)));
        }
        assert(untagged(s2).to_multiset() =~= untagged(t2).to_multiset().insert((x, false)));
    }
}

/// Normalization depends only on the multiset of input ranges and on which of
/// them is primary, not on their order.
pub proof fn lemma_normalize_permutation(rs1: Seq<Range>, p1: nat, rs2: Seq<Range>, p2: nat)
    requires
        p1 < rs1.len(),
        p2 < rs2.len(),
        rs1.to_multiset() == rs2.to_multiset(),
        rs1[p1 as int] == rs2[p2 as int],
    ensures
        spec_normalize(rs1, p1) == spec_normalize(rs2, p2),
{
    broadcast use group_to_multiset_ensures;

    to_multiset_len(rs1);
    to_multiset_len(rs2);
    assert(rs1.len() == rs2.len());
    if rs1.len() < 2 {
        assert(rs1 =~= rs2);
    } else {
        let o = tagged_order();
        let v = rs1[p1 as int];
        lemma_tag_is_update(rs1, p1);
        lemma_tag_is_update(rs2, p2);
        lemma_untagged_multiset(rs1, rs2);
        assert(untagged(rs1)[p1 as int] == (v, false));
        assert(untagged(rs2)[p2 as int] == (v, false));
        to_multiset_update(untagged(rs1), p1 as int, (v, true));
        to_multiset_update(untagged(rs2), p2 as int, (v, true));
        assert(tag(rs1, p1).to_multiset() == tag(rs2, p2).to_multiset());
        lemma_tagged_order_total();
        tag(rs1, p1).lemma_sort_by_ensures(o);
        tag(rs2, p2).lemma_sort_by_ensures(o);
        lemma_sorted_unique(tag(rs1, p1).sort_by(o), tag(rs2, p2).sort_by(o), o);
    }
}


/// Ranges in strictly increasing order of their lower edges, each ending at or
/// before the lower edge of every later one.
pub open spec fn chained(out: Seq<Range>) -> bool {
    forall|i: int, j: int|
        0 <= i < j < out.len() ==> spec_from(#[trigger] out[i]) < spec_from(#[trigger] out[j])
            && spec_to(out[i]) <= spec_from(out[j])
}

/// Tagged ranges in nondecreasing order of their lower edges.
pub open spec fn from_sorted(s: Seq<(Range, bool)>) -> bool {
    forall|i: int, j: int|
        0 <= i <= j < s.len() ==> spec_from((#[trigger] s[i]).0) <= spec_from((#[trigger] s[j]).0)
}

/// Every range of `done` starts before edge `e` and ends at or before it.
pub open spec fn all_before(done: Seq<Range>, e: int) -> bool {
    forall|i: int| 0 <= i < done.len() ==> spec_from(#[trigger] done[i]) < e && spec_to(done[i]) <= e
}

/// Visiting ranges by lower edge, the finished unions form a chain that ends
/// before the group being merged.
proof fn lemma_merge_chained(s: Seq<(Range, bool)>)
    requires
        from_sorted(s),
    ensures
        chained(merge_prefix(s).0),
        merge_prefix(s).2 matches Some(g) ==> {
            &&& g.0 <= g.1
            &&& all_before(merge_prefix(s).0, g.0 as int)
            &&& s.len() > 0
            &&& g.0 <= spec_from(s.last().0)
        },
    decreases s.len(),
{
    if s.len() > 0 {
        let t = s.drop_last();
        assert(from_sorted(t)) by {
            assert forall|i: int, j: int| 0 <= i <= j < t.len() implies spec_from((#[trigger] t[i]).0)
                <= spec_from((#[trigger] t[j]).0) by {
                assert(t[i] == s[i] && t[j] == s[j]);
            }
        }
        lemma_merge_chained(t);
        let x = s.last();
        let (done, prim, cur) = merge_prefix(t);
        match cur {
            None => {},
            Some(g) => {
                assert(spec_from(t.last().0) <= spec_from(x.0)) by {
                    assert(t.last() == s[s.len() - 2]);
                }
                let gr = group_range(g);
                assert(spec_from(gr) == g.0 && spec_to(gr) == g.1);
                if !spec_overlaps(mk_range(g.0, g.1), x.0) {
                    let done2 = done.push(gr);
                    assert(merge_prefix(s).0 == done2);
                    assert(chained(done2)) by {
                        assert forall|i: int, j: int| 0 <= i < j < done2.len() implies spec_from(
                            #[trigger] done2[i],
                        ) < spec_from(#[trigger] done2[j]) && spec_to(done2[i]) <= spec_from(done2[j]) by {
                            if j < done.len() {
                                assert(done2[i] == done[i] && done2[j] == done[j]);
                            } else {
                                assert(done2[i] == done[i]);
                            }
                        }
                    }
                    assert(all_before(done2, spec_from(x.0) as int)) by {
                        assert forall|i: int| 0 <= i < done2.len() implies spec_from(#[trigger] done2[i])
                            < spec_from(x.0) && spec_to(done2[i]) <= spec_from(x.0) by {
                            if i < done.len() {
                                assert(done2[i] == done[i]);
                            }
                        }
                    }
                }
            },
        }
    }
}

/// At most one of `s` is tagged primary.
pub open spec fn one_primary_at_most(s: Seq<(Range, bool)>) -> bool {
    forall|i: int, j: int| 0 <= i < s.len() && 0 <= j < s.len() && (#[trigger] s[i]).1 && (#[trigger] s[j]).1 ==> i == j
}

/// `outer` selects everything `inner` selects.
pub open spec fn covers(outer: Range, inner: Range) -> bool {
    spec_from(outer) <= spec_from(inner) && spec_to(inner) <= spec_to(outer)
}

/// Where the primary range `pr` of the visited ranges went: into a finished
/// union that covers it and has its direction, or into the group being merged,
/// which covers it and carries its direction.
pub open spec fn primary_tracked(m: MergeState, pr: Range) -> bool {
    match m.1 {
        Some(k) => {
            &&& k < m.0.len()
            &&& covers(m.0[k as int], pr)
            &&& spec_direction(m.0[k as int]) == spec_direction(pr)
            &&& (m.2 matches Some(g) ==> !g.3)
        },
        None => m.2 matches Some(g) && g.3 && g.2 == spec_direction(pr) && g.0 <= spec_from(pr)
            && spec_to(pr) <= g.1,
    }
}

/// No primary visited yet: none recorded, and the open group holds none.
pub open spec fn no_primary_yet(m: MergeState) -> bool {
    m.1 is None && (m.2 matches Some(g) ==> !g.3)
}

proof fn lemma_group_range_direction(g: Group, pr: Range)
    requires
        g.0 <= spec_from(pr),
        spec_to(pr) <= g.1,
        g.2 == spec_direction(pr),
    ensures
        covers(group_range(g), pr),
        spec_direction(group_range(g)) == spec_direction(pr),
{
}

/// Visiting ranges by lower edge with at most one primary, the merge keeps
/// track of the union that holds the primary and of its direction.
proof fn lemma_merge_primary(s: Seq<(Range, bool)>)
    requires
        from_sorted(s),
        one_primary_at_most(s),
    ensures
        !has_primary(s) ==> no_primary_yet(merge_prefix(s)),
        forall|q: int|
            0 <= q < s.len() && (#[trigger] s[q]).1 ==> primary_tracked(merge_prefix(s), s[q].0),
    decreases s.len(),
{
    if s.len() > 0 {
        let t = s.drop_last();
        assert(from_sorted(t)) by {
            assert forall|i: int, j: int| 0 <= i <= j < t.len() implies spec_from((#[trigger] t[i]).0)
                <= spec_from((#[trigger] t[j]).0) by {
                assert(t[i] == s[i] && t[j] == s[j]);
            }
        }
        assert(one_primary_at_most(t)) by {
            assert forall|i: int, j: int|
                0 <= i < t.len() && 0 <= j < t.len() && (#[trigger] t[i]).1 && (#[trigger] t[j]).1 implies i
                == j by {
                assert(t[i] == s[i] && t[j] == s[j]);
            }
        }
        lemma_merge_primary(t);
        lemma_merge_chained(t);
        lemma_merge_prefix_shape(t);
        let x = s.last();
        let m = merge_prefix(t);
        let (done, prim, cur) = m;
        if x.1 {
            assert(!has_primary(t)) by {
                if has_primary(t) {
                    let j = choose|j: int| 0 <= j < t.len() && (#[trigger] t[j]).1;
                    assert(s[j].1 && s[s.len() - 1].1);
                }
            }
            assert forall|q: int| 0 <= q < s.len() && (#[trigger] s[q]).1 implies primary_tracked(
                merge_prefix(s),
                s[q].0,
            ) by {
                assert(s[q].1 && s[s.len() - 1].1);
                assert(q == s.len() - 1);
                match cur {
                    None => {},
                    Some(g) => {
                        if !spec_overlaps(mk_range(g.0, g.1), x.0) {
                            assert(!g.3);
                        }
                    },
                }
            }
        } else {
            if !has_primary(s) {
                assert(!has_primary(t)) by {
                    if has_primary(t) {
                        let j = choose|j: int| 0 <= j < t.len() && (#[trigger] t[j]).1;
                        assert(s[j].1);
                    }
                }
            }
            assert forall|q: int| 0 <= q < s.len() && (#[trigger] s[q]).1 implies primary_tracked(
                merge_prefix(s),
                s[q].0,
            ) by {
                assert(q < s.len() - 1);
                assert(t[q] == s[q]);
                let pr = s[q].0;
                assert(primary_tracked(m, pr));
                match cur {
                    None => {},
                    Some(g) => {
                        if !spec_overlaps(mk_range(g.0, g.1), x.0) {
                            if g.3 {
                                lemma_group_range_direction(g, pr);
                                assert(merge_prefix(s).0[done.len() as int] == group_range(g));
                            } else {
                                let k = prim->0;
                                assert(merge_prefix(s).0[k as int] == done[k as int]);
                            }
                        }
                    },
                }
            }
        }
    }
}


proof fn lemma_count_two(s: Seq<(Range, bool)>, i: int, j: int)
    requires
        0 <= i < j < s.len(),
        s[i] == s[j],
    ensures
        s.to_multiset().count(s[i]) >= 2,
{
    broadcast use group_to_multiset_ensures;
    broadcast use vstd::multiset::group_multiset_axioms;

    let y = s[i];
    let r = s.remove(j);
    assert(r[i] == y);
    assert(r.contains(y));
    assert(r.to_multiset().count(y) > 0);
    assert(r.to_multiset() =~= s.to_multiset().remove(y));
}

/// The tagged ranges of a selection, sorted for merging: ordered by lower edge,
/// with exactly one of them tagged primary, namely the primary range.
proof fn lemma_sorted_tags(rs: Seq<Range>, p: nat)
    requires
        p < rs.len(),
    ensures
        from_sorted(tag(rs, p).sort_by(tagged_order())),
        one_primary_at_most(tag(rs, p).sort_by(tagged_order())),
        exists|q: int|
            0 <= q < tag(rs, p).sort_by(tagged_order()).len() && #[trigger] tag(rs, p).sort_by(
                tagged_order(),
            )[q] == (rs[p as int], true),
        tag(rs, p).sort_by(tagged_order()).len() == rs.len(),
{
    broadcast use group_to_multiset_ensures;
    broadcast use vstd::multiset::group_multiset_axioms;

    let o = tagged_order();
    let tg = tag(rs, p);
    let st = tg.sort_by(o);
    let v = rs[p as int];
    lemma_tagged_order_total();
    tg.lemma_sort_by_ensures(o);
    to_multiset_len(tg);
    to_multiset_len(st);
    assert(from_sorted(st)) by {
        assert forall|i: int, j: int| 0 <= i <= j < st.len() implies spec_from((#[trigger] st[i]).0)
            <= spec_from((#[trigger] st[j]).0) by {
            if i < j {
                assert(o(st[i], st[j]));
            }
        }
    }
    lemma_tag_is_update(rs, p);
    assert(untagged(rs)[p as int] == (v, false));
    to_multiset_update(untagged(rs), p as int, (v, true));
    assert(!untagged(rs).contains((v, true)));
    assert(untagged(rs).to_multiset().count((v, true)) == 0);
    assert(tg.to_multiset().count((v, true)) == 1);
    assert(one_primary_at_most(st)) by {
        assert forall|i: int, j: int|
            0 <= i < st.len() && 0 <= j < st.len() && (#[trigger] st[i]).1 && (#[trigger] st[j]).1 implies i
            == j by {
            assert forall|k: int| 0 <= k < st.len() && (#[trigger] st[k]).1 implies st[k] == (v, true) by {
                assert(st.contains(st[k]));
                assert(tg.contains(st[k]));
                let l = choose|l: int| 0 <= l < tg.len() && tg[l] == st[k];
                assert(tg[l].1);
                assert(l == p);
            }
            if i < j {
                lemma_count_two(st, i, j);
            } else if j < i {
                lemma_count_two(st, j, i);
            }
        }
    }
    assert(tg[p as int] == (v, true));
    assert(tg.contains((v, true)));
    assert(st.contains((v, true)));
}

/// Collision normalization yields a well-formed selection: at least one range
/// and no more than it was given, the ranges in strictly increasing order of
/// their lower edges with none overlapping another, and a primary index in
/// bounds whose range covers the primary input range and keeps its direction.
pub proof fn lemma_normalize_shape(rs: Seq<Range>, p: nat)
    requires
        p < rs.len(),
    ensures
        chained(spec_normalize(rs, p).0),
        spec_normalize(rs, p).0.len() <= rs.len(),
        forall|i: int, j: int|
            0 <= i < spec_normalize(rs, p).0.len() && 0 <= j < spec_normalize(rs, p).0.len() && i != j
                ==> !spec_overlaps(
                #[trigger] spec_normalize(rs, p).0[i],
                #[trigger] spec_normalize(rs, p).0[j],
            ),
        spec_normalize(rs, p).1 < spec_normalize(rs, p).0.len(),
        covers(spec_normalize(rs, p).0[spec_normalize(rs, p).1 as int], rs[p as int]),
        spec_direction(spec_normalize(rs, p).0[spec_normalize(rs, p).1 as int]) == spec_direction(
            rs[p as int],
        ),
{
    let (out, q) = spec_normalize(rs, p);
    if rs.len() >= 2 {
        let st = tag(rs, p).sort_by(tagged_order());
        lemma_sorted_tags(rs, p);
        lemma_merge_chained(st);
        lemma_merge_primary(st);
        lemma_merge_prefix_shape(st);
        let qq = choose|qq: int| 0 <= qq < st.len() && #[trigger] st[qq] == (rs[p as int], true);
        assert(st[qq].1);
        let (done, prim, cur) = merge_prefix(st);
        let g = cur->0;
        let gr = group_range(g);
        assert(spec_from(gr) == g.0 && spec_to(gr) == g.1);
        assert(out == done.push(gr));
        assert(chained(out)) by {
            assert forall|i: int, j: int| 0 <= i < j < out.len() implies spec_from(#[trigger] out[i])
                < spec_from(#[trigger] out[j]) && spec_to(out[i]) <= spec_from(out[j]) by {
                if j < done.len() {
                    assert(out[i] == done[i] && out[j] == done[j]);
                } else {
                    assert(out[i] == done[i]);
                }
            }
        }
        assert(primary_tracked(merge_prefix(st), rs[p as int]));
        match prim {
            Some(k) => {
                assert(out[k as int] == done[k as int]);
            },
            None => {
                lemma_group_range_direction(g, rs[p as int]);
            },
        }
    }
    assert forall|i: int, j: int| 0 <= i < out.len() && 0 <= j < out.len() && i != j implies !spec_overlaps(
        #[trigger] out[i],
        #[trigger] out[j],
    ) by {
        if i < j {
            assert(spec_from(out[i]) < spec_from(out[j]) && spec_to(out[i]) <= spec_from(out[j]));
        } else {
            assert(spec_from(out[j]) < spec_from(out[i]) && spec_to(out[j]) <= spec_from(out[i]));
        }
    }
}


/// `r` lies within a finished union or within the group being merged.
pub open spec fn covered_by(m: MergeState, r: Range) -> bool {
    ||| exists|i: int| 0 <= i < m.0.len() && covers(#[trigger] m.0[i], r)
    ||| (m.2 matches Some(g) && g.0 <= spec_from(r) && spec_to(r) <= g.1)
}

/// Merging never loses a range: every visited range lies within a finished
/// union or within the group being merged.
proof fn lemma_merge_covers(s: Seq<(Range, bool)>)
    requires
        from_sorted(s),
    ensures
        forall|k: int| 0 <= k < s.len() ==> covered_by(merge_prefix(s), (#[trigger] s[k]).0),
    decreases s.len(),
{
    if s.len() > 0 {
        let t = s.drop_last();
        assert(from_sorted(t)) by {
            assert forall|i: int, j: int| 0 <= i <= j < t.len() implies spec_from((#[trigger] t[i]).0)
                <= spec_from((#[trigger] t[j]).0) by {
                assert(t[i] == s[i] && t[j] == s[j]);
            }
        }
        lemma_merge_covers(t);
        lemma_merge_chained(t);
        let x = s.last();
        let m = merge_prefix(t);
        let (done, prim, cur) = m;
        let m2 = merge_prefix(s);
        assert forall|k: int| 0 <= k < s.len() implies covered_by(m2, (#[trigger] s[k]).0) by {
            if k < s.len() - 1 {
                assert(t[k] == s[k]);
                let r = s[k].0;
                assert(covered_by(m, r));
                if exists|i: int| 0 <= i < done.len() && covers(#[trigger] done[i], r) {
                    let i = choose|i: int| 0 <= i < done.len() && covers(#[trigger] done[i], r);
                    assert(m2.0[i] == done[i]);
                } else {
                    let g = cur->0;
                    if !spec_overlaps(mk_range(g.0, g.1), x.0) {
                        assert(m2.0[done.len() as int] == group_range(g));
                    }
                }
            }
        }
    }
}

/// Some range of `out` selects everything `r` selects.
pub open spec fn covered_in(out: Seq<Range>, r: Range) -> bool {
    exists|i: int| 0 <= i < out.len() && covers(#[trigger] out[i], r)
}

/// Normalization never loses text: every input range lies within some range
/// of the result.
pub proof fn lemma_normalize_covers(rs: Seq<Range>, p: nat)
    requires
        p < rs.len(),
    ensures
        forall|k: int| 0 <= k < rs.len() ==> covered_in(spec_normalize(rs, p).0, #[trigger] rs[k]),
{
    broadcast use group_to_multiset_ensures;

    let out = spec_normalize(rs, p).0;
    if rs.len() < 2 {
        assert forall|k: int| 0 <= k < rs.len() implies covered_in(out, #[trigger] rs[k]) by {
            assert(covers(out[k], rs[k]));
        }
    } else {
        let o = tagged_order();
        let tg = tag(rs, p);
        let st = tg.sort_by(o);
        lemma_sorted_tags(rs, p);
        lemma_tagged_order_total();
        tg.lemma_sort_by_ensures(o);
        lemma_merge_covers(st);
        lemma_merge_chained(st);
        lemma_merge_prefix_shape(st);
        let (done, prim, cur) = merge_prefix(st);
        let g = cur->0;
        assert(out == done.push(group_range(g)));
        assert forall|k: int| 0 <= k < rs.len() implies covered_in(out, #[trigger] rs[k]) by {
            assert(tg[k].0 == rs[k]);
            assert(tg.contains(tg[k]));
            assert(tg.to_multiset().count(tg[k]) > 0);
            assert(st.contains(tg[k]));
            let j = choose|j: int| 0 <= j < st.len() && st[j] == tg[k];
            assert(covered_by(merge_prefix(st), st[j].0));
            if exists|i: int| 0 <= i < done.len() && covers(#[trigger] done[i], rs[k]) {
                let i = choose|i: int| 0 <= i < done.len() && covers(#[trigger] done[i], rs[k]);
                assert(out[i] == done[i]);
            } else {
                assert(covers(out[done.len() as int], rs[k]));
            }
        }
    }
}


/// No range of `rs` remembers a visual position.
pub open spec fn no_visual_positions(rs: Seq<Range>) -> bool {
    forall|i: int| 0 <= i < rs.len() ==> (#[trigger] rs[i]).old_visual_position is None
}

proof fn lemma_merge_no_visual_positions(s: Seq<(Range, bool)>)
    ensures
        no_visual_positions(merge_prefix(s).0),
    decreases s.len(),
{
    if s.len() > 0 {
        lemma_merge_no_visual_positions(s.drop_last());
        let m = merge_prefix(s.drop_last());
        let m2 = merge_prefix(s);
        assert forall|i: int| 0 <= i < m2.0.len() implies (#[trigger] m2.0[i]).old_visual_position is None by {
            if i < m.0.len() {
                assert(m2.0[i] == m.0[i]);
            }
        }
    }
}

/// Merging a chain visits one range per group, so every group is that range.
proof fn lemma_merge_chain_prefix(out: Seq<Range>, q: nat, k: int)
    requires
        chained(out),
        no_visual_positions(out),
        q < out.len(),
        1 <= k <= out.len(),
    ensures
        merge_prefix(tag(out, q).take(k)) == (
            out.take(k - 1),
            if q < k - 1 {
                Some(q)
            } else {
                None::<nat>
            },
            Some(start_group(tag(out, q)[k - 1])),
        ),
    decreases k,
{
    let tg = tag(out, q);
    assert(tg.take(k).last() == tg[k - 1]);
    if k == 1 {
        assert(tg.take(1).drop_last() =~= Seq::<(Range, bool)>::empty());
        assert(merge_prefix(tg.take(1).drop_last()) == merge_prefix(Seq::<(Range, bool)>::empty()));
        assert(out.take(0) =~= Seq::<Range>::empty());
    } else {
        lemma_merge_chain_prefix(out, q, k - 1);
        assert(tg.take(k).drop_last() =~= tg.take(k - 1));
        assert(merge_prefix(tg.take(k)) == merge_step(merge_prefix(tg.take(k - 1)), tg[k - 1]));
        let g = start_group(tg[k - 2]);
        let x = tg[k - 1];
        assert(spec_from(out[k - 2]) < spec_from(out[k - 1]) && spec_to(out[k - 2]) <= spec_from(
            out[k - 1],
        ));
        assert(!spec_overlaps(mk_range(g.0, g.1), x.0));
        assert(group_range(g) == out[k - 2]);
        assert(out.take(k - 2).push(out[k - 2]) =~= out.take(k - 1));
    }
}

/// Normalizing a normalized selection changes nothing.
pub proof fn lemma_normalize_idempotent(rs: Seq<Range>, p: nat)
    requires
        p < rs.len(),
    ensures
        spec_normalize(spec_normalize(rs, p).0, spec_normalize(rs, p).1) == spec_normalize(rs, p),
{
    broadcast use group_to_multiset_ensures;

    let (out, q) = spec_normalize(rs, p);
    if rs.len() >= 2 {
        lemma_normalize_shape(rs, p);
        let st = tag(rs, p).sort_by(tagged_order());
        lemma_merge_no_visual_positions(st);
        lemma_merge_prefix_shape(st);
        lemma_sorted_tags(rs, p);
        let (done, prim, cur) = merge_prefix(st);
        assert(out == done.push(group_range(cur->0)));
        assert(no_visual_positions(out)) by {
            assert forall|i: int| 0 <= i < out.len() implies (#[trigger] out[i]).old_visual_position is None by {
                if i < done.len() {
                    assert(out[i] == done[i]);
                }
            }
        }
        if out.len() >= 2 {
            let o = tagged_order();
            let tg = tag(out, q);
            lemma_tagged_order_total();
            tg.lemma_sort_by_ensures(o);
            assert(sorted_by(tg, o)) by {
                assert forall|i: int, j: int| 0 <= i < j < tg.len() implies #[trigger] o(tg[i], tg[j]) by {
                    assert(spec_from(out[i]) < spec_from(out[j]));
                }
            }
            lemma_sorted_unique(tg.sort_by(o), tg, o);
            lemma_merge_chain_prefix(out, q, out.len() as int);
            assert(tg.take(out.len() as int) =~= tg);
            let g = start_group(tg[out.len() - 1]);
            assert(group_range(g) == out[out.len() - 1]);
            assert(out.take(out.len() - 1).push(out[out.len() - 1]) =~= out);
        }
    }
}


/// Some range of `rs` has lower edge `e`.
pub open spec fn some_from(rs: Seq<Range>, e: usize) -> bool {
    exists|k: int| 0 <= k < rs.len() && spec_from(#[trigger] rs[k]) == e
}

/// Some range of `rs` has upper edge `e`.
pub open spec fn some_to(rs: Seq<Range>, e: usize) -> bool {
    exists|k: int| 0 <= k < rs.len() && spec_to(#[trigger] rs[k]) == e
}

/// The ranges visited so far, untagged.
pub open spec fn visited(s: Seq<(Range, bool)>) -> Seq<Range> {
    s.map_values(|x: (Range, bool)| x.0)
}

/// Every finished union and the group being merged start at the lower edge of
/// a visited range and end at the upper edge of one.
proof fn lemma_merge_bounds(s: Seq<(Range, bool)>)
    ensures
        forall|i: int|
            0 <= i < merge_prefix(s).0.len() ==> some_from(visited(s), spec_from(#[trigger] merge_prefix(s).0[i]))
                && some_to(visited(s), spec_to(merge_prefix(s).0[i])),
        merge_prefix(s).2 matches Some(g) ==> some_from(visited(s), g.0) && some_to(visited(s), g.1)
            && g.0 <= g.1,
    decreases s.len(),
{
    if s.len() > 0 {
        let t = s.drop_last();
        lemma_merge_bounds(t);
        let x = s.last();
        let vt = visited(t);
        let vs = visited(s);
        assert(vs =~= vt.push(x.0));
        let (done, prim, cur) = merge_prefix(t);
        let m2 = merge_prefix(s);
        assert forall|e: usize| some_from(vt, e) implies some_from(vs, e) by {
            let k = choose|k: int| 0 <= k < vt.len() && spec_from(#[trigger] vt[k]) == e;
            assert(vs[k] == vt[k]);
        }
        assert forall|e: usize| some_to(vt, e) implies some_to(vs, e) by {
            let k = choose|k: int| 0 <= k < vt.len() && spec_to(#[trigger] vt[k]) == e;
            assert(vs[k] == vt[k]);
        }
        assert(spec_from(vs[vt.len() as int]) == spec_from(x.0));
        assert(some_from(vs, spec_from(x.0)));
        assert(spec_to(vs[vt.len() as int]) == spec_to(x.0));
        assert(some_to(vs, spec_to(x.0)));
        match cur {
            None => {},
            Some(g) => {
                let gr = group_range(g);
                assert(spec_from(gr) == g.0 && spec_to(gr) == g.1);
                if !spec_overlaps(mk_range(g.0, g.1), x.0) {
                    assert forall|i: int| 0 <= i < m2.0.len() implies some_from(
                        vs,
                        spec_from(#[trigger] m2.0[i]),
                    ) && some_to(vs, spec_to(m2.0[i])) by {
                        if i < done.len() {
                            assert(m2.0[i] == done[i]);
                        } else {
                            assert(m2.0[i] == gr);
                        }
                    }
                } else {
                    assert forall|i: int| 0 <= i < m2.0.len() implies some_from(
                        vs,
                        spec_from(#[trigger] m2.0[i]),
                    ) && some_to(vs, spec_to(m2.0[i])) by {
                        assert(m2.0[i] == done[i]);
                    }
                }
            },
        }
    }
}

/// Normalization invents no edges: every range of the result starts at the
/// lower edge of an input range and ends at the upper edge of one.
pub proof fn lemma_normalize_bounds(rs: Seq<Range>, p: nat)
    requires
        p < rs.len(),
    ensures
        forall|i: int|
            0 <= i < spec_normalize(rs, p).0.len() ==> some_from(
                rs,
                spec_from(#[trigger] spec_normalize(rs, p).0[i]),
            ) && some_to(rs, spec_to(spec_normalize(rs, p).0[i])),
{
    broadcast use group_to_multiset_ensures;

    let out = spec_normalize(rs, p).0;
    if rs.len() < 2 {
        assert forall|i: int| 0 <= i < out.len() implies some_from(rs, spec_from(#[trigger] out[i]))
            && some_to(rs, spec_to(out[i])) by {
            assert(out[i] == rs[i]);
        }
    } else {
        let o = tagged_order();
        let tg = tag(rs, p);
        let st = tg.sort_by(o);
        lemma_tagged_order_total();
        tg.lemma_sort_by_ensures(o);
        lemma_sorted_tags(rs, p);
        lemma_merge_bounds(st);
        lemma_merge_prefix_shape(st);
        let (done, prim, cur) = merge_prefix(st);
        let g = cur->0;
        let gr = group_range(g);
        assert(spec_from(gr) == g.0 && spec_to(gr) == g.1);
        assert(out == done.push(gr));
        let vs = visited(st);
        assert forall|e: usize| some_from(vs, e) implies some_from(rs, e) by {
            let k = choose|k: int| 0 <= k < vs.len() && spec_from(#[trigger] vs[k]) == e;
            assert(st.contains(st[k]));
            assert(tg.contains(st[k]));
            let j = choose|j: int| 0 <= j < tg.len() && tg[j] == st[k];
            assert(rs[j] == tg[j].0);
        }
        assert forall|e: usize| some_to(vs, e) implies some_to(rs, e) by {
            let k = choose|k: int| 0 <= k < vs.len() && spec_to(#[trigger] vs[k]) == e;
            assert(st.contains(st[k]));
            assert(tg.contains(st[k]));
            let j = choose|j: int| 0 <= j < tg.len() && tg[j] == st[k];
            assert(rs[j] == tg[j].0);
        }
        assert forall|i: int| 0 <= i < out.len() implies some_from(rs, spec_from(#[trigger] out[i]))
            && some_to(rs, spec_to(out[i])) by {
            if i < done.len() {
                assert(out[i] == done[i]);
            }
        }
    }
}


/// `k` is the first index of `s` whose range starts at edge `f`.
pub open spec fn first_from(s: Seq<(Range, bool)>, k: int, f: int) -> bool {
    &&& 0 <= k < s.len()
    &&& spec_from(s[k].0) == f
    &&& forall|j: int| 0 <= j < k ==> spec_from((#[trigger] s[j]).0) < f
}

/// `r` points the way of the first range of `s` that starts where `r` starts.
pub open spec fn led_by_first(s: Seq<(Range, bool)>, r: Range) -> bool {
    exists|k: int| #[trigger] first_from(s, k, spec_from(r) as int) && spec_direction(r) == spec_direction(s[k].0)
}

/// What the merge keeps of the unions without the primary: each points the
/// way of the first range visited that starts at its lower edge; the group
/// being merged, when it holds no primary, likewise (and a point group was
/// started by a point); and every range visited so far starts at the group's
/// lower edge or before its upper edge.
pub open spec fn leaders_kept(s: Seq<(Range, bool)>, m: MergeState) -> bool {
    &&& forall|i: int| 0 <= i < m.0.len() && m.1 != Some(i as nat) ==> led_by_first(s, #[trigger] m.0[i])
    &&& match m.2 {
        Some(g) => {
            &&& (!g.3 ==> exists|k: int|
                #[trigger] first_from(s, k, g.0 as int) && g.2 == spec_direction(s[k].0) && (g.0
                    == g.1 ==> spec_to(s[k].0) == g.0))
            &&& forall|j: int|
                0 <= j < s.len() ==> spec_from((#[trigger] s[j]).0) == g.0 || spec_from(s[j].0) < g.1
        },
        None => true,
    }
}

proof fn lemma_first_from_extends(s: Seq<(Range, bool)>, k: int, f: int)
    requires
        s.len() > 0,
        first_from(s.drop_last(), k, f),
    ensures
        first_from(s, k, f),
        s[k] == s.drop_last()[k],
{
    assert forall|j: int| 0 <= j < k implies spec_from((#[trigger] s[j]).0) < f by {
        assert(s[j] == s.drop_last()[j]);
    }
}

proof fn lemma_merge_leaders(s: Seq<(Range, bool)>)
    requires
        from_sorted(s),
        one_primary_at_most(s),
    ensures
        leaders_kept(s, merge_prefix(s)),
    decreases s.len(),
{
    if s.len() > 0 {
        let t = s.drop_last();
        assert(from_sorted(t)) by {
            assert forall|i: int, j: int| 0 <= i <= j < t.len() implies spec_from((#[trigger] t[i]).0)
                <= spec_from((#[trigger] t[j]).0) by {
                assert(t[i] == s[i] && t[j] == s[j]);
            }
        }
        assert(one_primary_at_most(t)) by {
            assert forall|i: int, j: int|
                0 <= i < t.len() && 0 <= j < t.len() && (#[trigger] t[i]).1 && (#[trigger] t[j]).1 implies i
                == j by {
                assert(t[i] == s[i] && t[j] == s[j]);
            }
        }
        lemma_merge_leaders(t);
        lemma_merge_primary(t);
        lemma_merge_chained(t);
        lemma_merge_prefix_shape(t);
        let x = s.last();
        let n = s.len() - 1;
        assert(s[n] == x);
        assert forall|j: int| 0 <= j < n implies #[trigger] s[j] == t[j] by {}
        let m = merge_prefix(t);
        let (done, prim, cur) = m;
        let m2 = merge_prefix(s);
        assert(m2 == merge_step(m, x));
        // The unions already finished keep their leaders.
        assert forall|i: int| 0 <= i < done.len() && m.1 != Some(i as nat) implies led_by_first(
            s,
            #[trigger] done[i],
        ) by {
            assert(led_by_first(t, done[i]));
            let k = choose|k: int|
                #[trigger] first_from(t, k, spec_from(done[i]) as int) && spec_direction(done[i])
                    == spec_direction(t[k].0);
            lemma_first_from_extends(s, k, spec_from(done[i]) as int);
        }
        // Whether a primary is recorded, the open group holds none.
        assert(m.1 is Some ==> (cur matches Some(g) ==> !g.3)) by {
            if has_primary(t) {
                let q = choose|q: int| 0 <= q < t.len() && (#[trigger] t[q]).1;
                assert(primary_tracked(m, t[q].0));
            }
        }
        match cur {
            None => {
                assert(t.len() == 0);
                let g = start_group(x);
                assert(first_from(s, 0, g.0 as int));
                assert(m2.0 == done);
                assert(done.len() == 0);
                assert(leaders_kept(s, m2));
            },
            Some(g) => {
                assert(g.0 <= spec_from(x.0)) by {
                    assert(t.last() == t[t.len() - 1]);
                    assert(spec_from(t[t.len() - 1].0) <= spec_from(s[n].0));
                }
                if spec_overlaps(mk_range(g.0, g.1), x.0) {
                    let g2 = m2.2->0;
                    assert(m2.0 == done && m2.1 == m.1);
                    assert forall|i: int| 0 <= i < m2.0.len() && m2.1 != Some(i as nat) implies led_by_first(
                        s,
                        #[trigger] m2.0[i],
                    ) by {
                        assert(m2.0[i] == done[i]);
                    }
                    assert(g2.0 == g.0);
                    if !g2.3 {
                        let k = choose|k: int|
                            #[trigger] first_from(t, k, g.0 as int) && g.2 == spec_direction(t[k].0)
                                && (g.0 == g.1 ==> spec_to(t[k].0) == g.0);
                        lemma_first_from_extends(s, k, g.0 as int);
                        assert(first_from(s, k, g2.0 as int));
                    }
                    assert forall|j: int| 0 <= j < s.len() implies spec_from((#[trigger] s[j]).0) == g2.0
                        || spec_from(s[j].0) < g2.1 by {
                        if j < n {
                            assert(s[j] == t[j]);
                        }
                    }
                    assert(leaders_kept(s, m2));
                } else {
                    let gr = group_range(g);
                    assert(spec_from(gr) == g.0);
                    assert(g.1 <= spec_from(x.0));
                    assert(m2.0 == done.push(gr));
                    let g2 = start_group(x);
                    assert(m2.2 == Some(g2));
                    assert(first_from(s, n, g2.0 as int)) by {
                        assert forall|j: int| 0 <= j < n implies spec_from((#[trigger] s[j]).0)
                            < spec_from(x.0) by {
                            assert(s[j] == t[j]);
                        }
                    }
                    assert forall|j: int| 0 <= j < s.len() implies spec_from((#[trigger] s[j]).0) == g2.0
                        || spec_from(s[j].0) < g2.1 by {
                        if j < n {
                            assert(s[j] == t[j]);
                        }
                    }
                    assert forall|i: int| 0 <= i < m2.0.len() && m2.1 != Some(i as nat) implies led_by_first(
                        s,
                        #[trigger] m2.0[i],
                    ) by {
                        if i < done.len() {
                            assert(m2.0[i] == done[i]);
                            if g.3 {
                                assert(m.1 is None);
                            } else {
                                assert(m2.1 == m.1);
                            }
                        } else {
                            assert(m2.0[i] == gr);
                            assert(!g.3);
                            let k = choose|k: int|
                                #[trigger] first_from(t, k, g.0 as int) && g.2 == spec_direction(t[k].0)
                                    && (g.0 == g.1 ==> spec_to(t[k].0) == g.0);
                            lemma_first_from_extends(s, k, g.0 as int);
                            assert(first_from(s, k, spec_from(m2.0[i]) as int));
                        }
                    }
                    assert(leaders_kept(s, m2));
                }
            },
        }
    }
}

/// A union of collision normalization that holds no primary range points the
/// way of the range it is led by: of the given ranges that start at its lower
/// edge, the widest one, and of equally wide ones a forward one.
pub proof fn lemma_normalize_union_direction(rs: Seq<Range>, p: nat, i: int)
    requires
        p < rs.len(),
        0 <= i < spec_normalize(rs, p).0.len(),
        i != spec_normalize(rs, p).1,
    ensures
        exists|k: int|
            0 <= k < rs.len() && spec_from(#[trigger] rs[k]) == spec_from(spec_normalize(rs, p).0[i])
                && spec_direction(spec_normalize(rs, p).0[i]) == spec_direction(rs[k]) && forall|j: int|
                0 <= j < rs.len() && spec_from(#[trigger] rs[j]) == spec_from(rs[k]) ==> spec_to(rs[j])
                    < spec_to(rs[k]) || (spec_to(rs[j]) == spec_to(rs[k]) && (spec_direction(rs[k])
                    == Direction::Forward || spec_direction(rs[j]) == Direction::Backward)),
{
    broadcast use group_to_multiset_ensures;

    let (out, q) = spec_normalize(rs, p);
    if rs.len() < 2 {
        assert(false);
    } else {
        let o = tagged_order();
        let tg = tag(rs, p);
        let st = tg.sort_by(o);
        lemma_sorted_tags(rs, p);
        lemma_tagged_order_total();
        tg.lemma_sort_by_ensures(o);
        lemma_merge_leaders(st);
        lemma_merge_primary(st);
        lemma_merge_prefix_shape(st);
        lemma_merge_chained(st);
        let m = merge_prefix(st);
        let (done, prim, cur) = m;
        let g = cur->0;
        let qq = choose|qq: int| 0 <= qq < st.len() && #[trigger] st[qq] == (rs[p as int], true);
        assert(st[qq].1);
        assert(primary_tracked(m, st[qq].0));
        assert(out == done.push(group_range(g)));
        // The union is led by the first sorted range at its lower edge.
        assert(led_by_first(st, out[i])) by {
            if i < done.len() {
                assert(out[i] == done[i]);
            } else {
                assert(out[i] == group_range(g));
                assert(!g.3);
                let k = choose|k: int|
                    #[trigger] first_from(st, k, g.0 as int) && g.2 == spec_direction(st[k].0) && (g.0
                        == g.1 ==> spec_to(st[k].0) == g.0);
                assert(first_from(st, k, spec_from(out[i]) as int));
            }
        }
        let kk = choose|k: int|
            #[trigger] first_from(st, k, spec_from(out[i]) as int) && spec_direction(out[i])
                == spec_direction(st[k].0);
        assert(st.contains(st[kk]));
        assert(tg.contains(st[kk]));
        let k = choose|k: int| 0 <= k < tg.len() && tg[k] == st[kk];
        assert(rs[k] == st[kk].0);
        assert forall|j: int|
            0 <= j < rs.len() && spec_from(#[trigger] rs[j]) == spec_from(rs[k]) implies spec_to(rs[j])
                < spec_to(rs[k]) || (spec_to(rs[j]) == spec_to(rs[k]) && (spec_direction(rs[k])
                == Direction::Forward || spec_direction(rs[j]) == Direction::Backward)) by {
            assert(tg[j] == (rs[j], j == p));
            assert(tg.contains(tg[j]));
            assert(tg.to_multiset().count(tg[j]) > 0);
            assert(st.to_multiset() == tg.to_multiset());
            assert(st.to_multiset().count(tg[j]) > 0);
            assert(st.contains(tg[j]));
            let jj = choose|jj: int| 0 <= jj < st.len() && st[jj] == tg[j];
            if jj < kk {
                assert(spec_from(st[jj].0) < spec_from(out[i]));
            } else if jj > kk {
                assert(o(st[kk], st[jj]));
            }
        }
    }
}

} // verus!
